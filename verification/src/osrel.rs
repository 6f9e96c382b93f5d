use vstd::prelude::*;
use vstd::string::StringSliceAdditionalSpecFns;
use crate::error::MdshError;
use crate::scan::{find_byte, lemma_find_byte, scan_byte, bytes_eq, sub_vec};

verus! {

/// The mapping that a sequence of key/value entries denotes: a later entry
/// with the same key overwrites an earlier one.
pub open spec fn map_of(es: Seq<(Vec<u8>, Vec<u8>)>) -> Map<Seq<u8>, Seq<u8>>
    decreases es.len(),
{
    if es.len() == 0 {
        Map::empty()
    } else {
        map_of(es.drop_last()).insert(es.last().0@, es.last().1@)
    }
}

/// The key/value mapping read from an os-release stream. Keys are unique in
/// the view; values are stored verbatim, quote characters included.
#[derive(Debug)]
pub struct OsMap {
    entries: Vec<(Vec<u8>, Vec<u8>)>,
}

impl View for OsMap {
    type V = Map<Seq<u8>, Seq<u8>>;

    closed spec fn view(&self) -> Map<Seq<u8>, Seq<u8>> {
        map_of(self.entries@)
    }
}

/// If no entry at index `i` or later has key `k`, the entries up to `i`
/// already decide what the whole mapping says at `k`.
proof fn lemma_map_of_prefix(es: Seq<(Vec<u8>, Vec<u8>)>, i: int, k: Seq<u8>)
    requires
        0 <= i <= es.len(),
        forall|j: int| i <= j < es.len() ==> (#[trigger] es[j]).0@ != k,
    ensures
        map_of(es).contains_key(k) == map_of(es.take(i)).contains_key(k),
        map_of(es).contains_key(k) ==> map_of(es)[k] == map_of(es.take(i))[k],
    decreases es.len() - i,
{
    if i == es.len() {
        assert(es.take(i) =~= es);
    } else {
        assert(es.drop_last() =~= es.take(es.len() - 1));
        lemma_map_of_prefix(es.take(es.len() - 1), i, k);
        assert(es.take(es.len() - 1).take(i) =~= es.take(i));
    }
}

impl OsMap {
    /// An empty mapping.
    pub fn new() -> (r: Self)
        ensures
            r@ == Map::<Seq<u8>, Seq<u8>>::empty(),
    {
        OsMap { entries: Vec::new() }
    }

    /// Binds `key` to `value`, overwriting any earlier binding of `key`.
    pub fn set(&mut self, key: Vec<u8>, value: Vec<u8>)
        ensures
            final(self)@ == old(self)@.insert(key@, value@),
    {
        let ghost k = key@;
        let ghost v = value@;
        self.entries.push((key, value));
        proof {
            assert(self.entries@.drop_last() =~= old(self).entries@);
            assert(self.entries@.last().0@ == k);
            assert(self.entries@.last().1@ == v);
        }
    }

    /// Looks the key up; `None` when the key is unbound.
    pub fn get<'a>(&'a self, key: &[u8]) -> (r: Option<&'a Vec<u8>>)
        ensures
            match r {
                Some(v) => self@.contains_key(key@) && v@ == self@[key@],
                None => !self@.contains_key(key@),
            },
    {
        let ghost es = self.entries@;
        let mut i: usize = self.entries.len();
        while i > 0
            invariant
                0 <= i <= es.len(),
                es == self.entries@,
                forall|j: int| i <= j < es.len() ==> (#[trigger] es[j]).0@ != key@,
            decreases i,
        {
            i = i - 1;
            if bytes_eq(self.entries[i].0.as_slice(), key) {
                proof {
                    lemma_map_of_prefix(es, i + 1, key@);
                    assert(es.take(i + 1).drop_last() =~= es.take(i as int));
                    assert(es.take(i + 1).last() == es[i as int]);
                }
                return Some(&self.entries[i].1);
            }
        }
        proof {
            lemma_map_of_prefix(es, 0, key@);
            assert(es.take(0) =~= Seq::<(Vec<u8>, Vec<u8>)>::empty());
        }
        None
    }

    /// Whether `key` is bound exactly to `value` (byte-for-byte).
    pub fn binds(&self, key: &[u8], value: &[u8]) -> (r: bool)
        ensures
            r == (self@.contains_key(key@) && self@[key@] == value@),
    {
        match self.get(key) {
            Some(v) => bytes_eq(v.as_slice(), value),
            None => false,
        }
    }
}

/// Strips one trailing carriage return, as a line reader does before a line
/// feed.
pub open spec fn strip_cr(l: Seq<u8>) -> Seq<u8> {
    if l.len() > 0 && l.last() == 13 {
        l.drop_last()
    } else {
        l
    }
}

/// The lines of a byte stream: segments between line feeds, each stripped of
/// one carriage return before the line feed; a final segment without a line
/// feed is kept verbatim, and a trailing line feed opens no extra line.
pub open spec fn lines_of(s: Seq<u8>) -> Seq<Seq<u8>>
    decreases s.len(),
    via lines_of_decreases
{
    if s.len() == 0 {
        seq![]
    } else {
        let i = find_byte(s, 10);
        if i == s.len() {
            seq![s]
        } else {
            seq![strip_cr(s.take(i))] + lines_of(s.skip(i + 1))
        }
    }
}

#[via_fn]
proof fn lines_of_decreases(s: Seq<u8>) {
    lemma_find_byte(s, 10);
}

/// The strict os-release parse over a line sequence: each line splits at its
/// first `=` into key and value, later lines overwrite earlier ones, and the
/// first line without `=` is the error.
pub open spec fn parse_os_lines(ls: Seq<Seq<u8>>, acc: Map<Seq<u8>, Seq<u8>>) -> Result<
    Map<Seq<u8>, Seq<u8>>,
    Seq<u8>,
>
    decreases ls.len(),
{
    if ls.len() == 0 {
        Ok(acc)
    } else {
        let i = find_byte(ls[0], 61);
        if i == ls[0].len() {
            Err(ls[0])
        } else {
            parse_os_lines(ls.skip(1), acc.insert(ls[0].take(i), ls[0].skip(i + 1)))
        }
    }
}

/// Builds the OS map from the text of an os-release file. Every line must
/// hold `=`: the prefix up to the first `=` is the key, the rest the value,
/// stored verbatim. A line without `=` is the error, and the first such line
/// is reported.
pub fn parse_os_release(content: &str) -> (r: Result<OsMap, MdshError>)
    ensures
        r is Ok <==> parse_os_lines(lines_of(content.spec_bytes()), Map::empty()) is Ok,
        r matches Ok(m) ==> parse_os_lines(lines_of(content.spec_bytes()), Map::empty())
            == Ok::<Map<Seq<u8>, Seq<u8>>, Seq<u8>>(m@),
        r matches Err(e) ==> (e matches MdshError::InvalidOsReleaseLine(l) && parse_os_lines(
            lines_of(content.spec_bytes()),
            Map::empty(),
        ) == Err::<Map<Seq<u8>, Seq<u8>>, Seq<u8>>(l@)),
{
    let bytes = content.as_bytes();
    let ghost full = bytes@;
    let n = bytes.len();
    let mut map = OsMap::new();
    let mut pos: usize = 0;
    proof {
        assert(full.skip(0) =~= full);
    }
    while pos < n
        invariant
            0 <= pos <= n,
            n == full.len(),
            bytes@ == full,
            full == content.spec_bytes(),
            parse_os_lines(lines_of(full), Map::empty()) == parse_os_lines(
                lines_of(full.skip(pos as int)),
                map@,
            ),
        decreases n - pos,
    {
        let ghost rest = full.skip(pos as int);
        let nl = scan_byte(bytes, pos, 10);
        proof {
            lemma_find_byte(rest, 10);
        }
        // The line ends before the line feed; a carriage return just before a
        // line feed is stripped as well.
        let lend = if nl < n && nl > pos && bytes[nl - 1] == 13 {
            nl - 1
        } else {
            nl
        };
        proof {
            if nl < n {
                assert(rest.take(nl - pos) =~= full.subrange(pos as int, nl as int));
                if nl > pos && full[nl - 1] == 13 {
                    assert(rest.take(nl - pos).drop_last() =~= full.subrange(
                        pos as int,
                        nl - 1,
                    ));
                }
                assert(strip_cr(rest.take(nl - pos)) == full.subrange(pos as int, lend as int));
            } else {
                assert(rest =~= full.subrange(pos as int, lend as int));
            }
        }
        let line = sub_vec(bytes, pos, lend);
        let eq = scan_byte(line.as_slice(), 0, 61);
        proof {
            assert(line@.skip(0) =~= line@);
            lemma_find_byte(line@, 61);
        }
        if eq == line.len() {
            proof {
                if nl < n {
                    assert(lines_of(rest).len() > 0);
                    assert(lines_of(rest)[0] == line@);
                } else {
                    assert(lines_of(rest) =~= seq![line@]);
                }
                assert(parse_os_lines(lines_of(rest), map@) == Err::<
                    Map<Seq<u8>, Seq<u8>>,
                    Seq<u8>,
                >(line@));
            }
            return Err(MdshError::InvalidOsReleaseLine(line));
        }
        let key = sub_vec(line.as_slice(), 0, eq);
        let value = sub_vec(line.as_slice(), eq + 1, line.len());
        proof {
            assert(key@ == line@.take(eq as int));
            assert(value@ =~= line@.skip(eq + 1));
        }
        map.set(key, value);
        if nl == n {
            proof {
                assert(lines_of(rest) =~= seq![line@]);
                assert(lines_of(rest).skip(1) =~= Seq::<Seq<u8>>::empty());
                assert(full.skip(n as int) =~= Seq::<u8>::empty());
            }
            pos = n;
        } else {
            proof {
                assert(lines_of(rest)[0] == line@);
                assert(rest.skip(nl - pos + 1) =~= full.skip(nl + 1));
                assert(lines_of(rest).skip(1) =~= lines_of(full.skip(nl + 1)));
            }
            pos = nl + 1;
        }
    }
    proof {
        assert(full.skip(pos as int) =~= Seq::<u8>::empty());
    }
    Ok(map)
}

} // verus!
