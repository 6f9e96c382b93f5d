use vstd::prelude::*;
use vstd::string::StringSliceAdditionalSpecFns;
use vstd::string::StrSliceExecFns;
use crate::scan::{lemma_find_byte, scan_byte, bytes_eq, sub_vec};
use crate::fence::split_on;

verus! {

/// The caller-supplied set of context tags, compared byte-for-byte against
/// the tags named in a fence's context list.
pub struct Context {
    tags: Vec<Vec<u8>>,
}

impl View for Context {
    type V = Set<Seq<u8>>;

    closed spec fn view(&self) -> Set<Seq<u8>> {
        Set::new(|t: Seq<u8>| exists|i: int| 0 <= i < self.tags@.len() && self.tags@[i]@ == t)
    }
}

impl Context {
    /// The empty context.
    pub fn new() -> (r: Self)
        ensures
            r@ == Set::<Seq<u8>>::empty(),
    {
        let r = Context { tags: Vec::new() };
        proof {
            assert(r@ =~= Set::<Seq<u8>>::empty());
        }
        r
    }

    /// Adds one tag to the context.
    pub fn add(&mut self, tag: &str)
        ensures
            final(self)@ == old(self)@.insert(tag.spec_bytes()),
    {
        let ghost pre = self.tags@;
        self.tags.push(tag.as_bytes_vec());
        proof {
            assert forall|t: Seq<u8>| self@.contains(t) implies old(self)@.insert(
                tag.spec_bytes(),
            ).contains(t) by {
                let i = choose|i: int| 0 <= i < self.tags@.len() && self.tags@[i]@ == t;
                if i < pre.len() {
                    assert(pre[i]@ == t);
                }
            }
            assert forall|t: Seq<u8>| old(self)@.insert(tag.spec_bytes()).contains(
                t,
            ) implies self@.contains(t) by {
                if t == tag.spec_bytes() {
                    assert(self.tags@[pre.len() as int]@ == t);
                } else {
                    let i = choose|i: int| 0 <= i < pre.len() && pre[i]@ == t;
                    assert(self.tags@[i]@ == t);
                }
            }
            assert(self@ =~= old(self)@.insert(tag.spec_bytes()));
        }
    }

    /// Whether `tag` is one of the context's tags.
    pub fn has(&self, tag: &[u8]) -> (r: bool)
        ensures
            r == self@.contains(tag@),
    {
        let mut i: usize = 0;
        while i < self.tags.len()
            invariant
                0 <= i <= self.tags@.len(),
                forall|j: int| 0 <= j < i ==> self.tags@[j]@ != tag@,
            decreases self.tags@.len() - i,
        {
            if bytes_eq(self.tags[i].as_slice(), tag) {
                return true;
            }
            i = i + 1;
        }
        false
    }

    /// Builds the context from one comma-separated argument: its tags are
    /// exactly the comma-separated pieces of `arg`, empty pieces included.
    pub fn from_arg(arg: &str) -> (r: Self)
        ensures
            forall|t: Seq<u8>|
                r@.contains(t) == split_on(arg.spec_bytes(), 44).contains(t),
    {
        let bytes = arg.as_bytes();
        let ghost full = bytes@;
        let mut r = Context { tags: Vec::new() };
        let mut start: usize = 0;
        let mut done = false;
        proof {
            assert(full.skip(0) =~= full);
        }
        while !done
            invariant
                0 <= start <= full.len(),
                bytes@ == full,
                full == arg.spec_bytes(),
                !done ==> split_on(full, 44) =~= r.tags@.map_values(|v: Vec<u8>| v@) + split_on(
                    full.skip(start as int),
                    44,
                ),
                done ==> split_on(full, 44) =~= r.tags@.map_values(|v: Vec<u8>| v@),
            decreases full.len() - start + (if done { 0int } else { 1int }),
        {
            let ghost rest = full.skip(start as int);
            let ghost pre = r.tags@;
            let c = scan_byte(bytes, start, 44);
            proof {
                lemma_find_byte(rest, 44);
            }
            let tok = sub_vec(bytes, start, c);
            proof {
                assert(tok@ =~= rest.take(c - start));
            }
            r.tags.push(tok);
            proof {
                assert(r.tags@.map_values(|v: Vec<u8>| v@) =~= pre.map_values(|v: Vec<u8>| v@)
                    + seq![rest.take(c - start)]);
            }
            if c == bytes.len() {
                proof {
                    assert(tok@ =~= rest);
                    assert(split_on(rest, 44) =~= seq![rest]);
                    assert(split_on(full, 44) =~= r.tags@.map_values(|v: Vec<u8>| v@));
                }
                done = true;
            } else {
                proof {
                    assert(rest.skip(c - start + 1) =~= full.skip(c + 1));
                    assert(split_on(full, 44) =~= r.tags@.map_values(|v: Vec<u8>| v@) + split_on(
                        full.skip(c + 1),
                        44,
                    ));
                }
                start = c + 1;
            }
        }
        proof {
            let toks = split_on(full, 44);
            assert forall|t: Seq<u8>| r@.contains(t) == toks.contains(t) by {
                assert(toks =~= r.tags@.map_values(|v: Vec<u8>| v@));
                if r@.contains(t) {
                    let i = choose|i: int| 0 <= i < r.tags@.len() && r.tags@[i]@ == t;
                    assert(toks[i] == t);
                }
                if toks.contains(t) {
                    let i = choose|i: int| 0 <= i < toks.len() && toks[i] == t;
                    assert(r.tags@[i]@ == t);
                }
            }
        }
        r
    }
}

} // verus!
