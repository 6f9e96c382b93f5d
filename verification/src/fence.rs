use vstd::prelude::*;
use crate::context::Context;
use crate::error::MdshError;
use crate::osrel::OsMap;
use crate::scan::{
    is_ws, find_byte, find_ws, lemma_find_byte, lemma_find_ws, lemma_cons_skip, scan_byte,
    scan_ws, sub_vec,
};

verus! {

/// The bytes of the language tag `sh`, the only tag that selects a block.
pub open spec fn sh_bytes() -> Seq<u8> {
    seq![115u8, 104u8]
}

/// Splits `s` at every occurrence of `b`, keeping empty pieces.
pub open spec fn split_on(s: Seq<u8>, b: u8) -> Seq<Seq<u8>>
    decreases s.len(),
    via split_on_decreases
{
    let f = find_byte(s, b);
    if f == s.len() {
        seq![s]
    } else {
        seq![s.take(f)] + split_on(s.skip(f + 1), b)
    }
}

#[via_fn]
proof fn split_on_decreases(s: Seq<u8>, b: u8) {
    lemma_find_byte(s, b);
}

/// Splits `s` at runs of whitespace, keeping no empty pieces.
pub open spec fn split_ws(s: Seq<u8>) -> Seq<Seq<u8>>
    decreases s.len(),
    via split_ws_decreases
{
    if s.len() == 0 {
        seq![]
    } else if is_ws(s[0]) {
        split_ws(s.skip(1))
    } else {
        let e = find_ws(s);
        seq![s.take(e)] + split_ws(s.skip(e))
    }
}

#[via_fn]
proof fn split_ws_decreases(s: Seq<u8>) {
    if s.len() != 0 && !is_ws(s[0]) {
        lemma_find_ws(s);
    }
}

/// Whether a `KEY=VALUE` token holds an `=` at all.
pub open spec fn token_has_eq(t: Seq<u8>) -> bool {
    find_byte(t, 61) < t.len()
}

/// The key of a `KEY=VALUE` token: the bytes before its first `=`.
pub open spec fn token_key(t: Seq<u8>) -> Seq<u8> {
    t.take(find_byte(t, 61))
}

/// The value of a `KEY=VALUE` token: the bytes after its first `=`.
pub open spec fn token_value(t: Seq<u8>) -> Seq<u8> {
    t.skip(find_byte(t, 61) + 1)
}

/// Whether the OS map binds the token's key exactly to the token's value.
pub open spec fn token_matches(t: Seq<u8>, os: Map<Seq<u8>, Seq<u8>>) -> bool {
    os.contains_key(token_key(t)) && os[token_key(t)] == token_value(t)
}

/// The context constraint of a fence: an empty list asks nothing; otherwise
/// at least one comma-separated tag must be in the caller's context.
pub open spec fn ctx_ok(c: Seq<u8>, cx: Set<Seq<u8>>) -> bool {
    c.len() == 0 || exists|i: int|
        0 <= i < split_on(c, 44).len() && cx.contains(#[trigger] split_on(c, 44)[i])
}

/// Whether some token of a list matches the OS map.
pub open spec fn os_tokens_ok(toks: Seq<Seq<u8>>, os: Map<Seq<u8>, Seq<u8>>) -> bool {
    exists|i: int| 0 <= i < toks.len() && token_matches(#[trigger] toks[i], os)
}

/// The OS constraint of a fence: an empty list asks nothing; otherwise at
/// least one whitespace-separated `KEY=VALUE` token must match the OS map.
pub open spec fn os_ok(o: Seq<u8>, os: Map<Seq<u8>, Seq<u8>>) -> bool {
    o.len() == 0 || os_tokens_ok(split_ws(o), os)
}

/// Well-formedness of an os-list: every token holds an `=`.
pub open spec fn os_list_wf(o: Seq<u8>) -> bool {
    forall|i: int| 0 <= i < split_ws(o).len() ==> token_has_eq(#[trigger] split_ws(o)[i])
}

/// Whether the info-string holds a `:`.
pub open spec fn has_colon(info: Seq<u8>) -> bool {
    find_byte(info, 58) < info.len()
}

/// The language tag: the bytes before the first `:`, or the whole
/// info-string when there is none.
pub open spec fn lang_of(info: Seq<u8>) -> Seq<u8> {
    info.take(find_byte(info, 58))
}

/// The parameter string: the bytes after the first `:`.
pub open spec fn param_of(info: Seq<u8>) -> Seq<u8> {
    info.skip(find_byte(info, 58) + 1)
}

/// The context list of a parameter string: the bytes before the first `;`,
/// or empty when there is none.
pub open spec fn ctx_part(param: Seq<u8>) -> Seq<u8> {
    let j = find_byte(param, 59);
    if j == param.len() {
        Seq::empty()
    } else {
        param.take(j)
    }
}

/// The os-list of a parameter string: the bytes after the first `;`, or the
/// whole parameter string when there is none.
pub open spec fn os_part(param: Seq<u8>) -> Seq<u8> {
    let j = find_byte(param, 59);
    if j == param.len() {
        param
    } else {
        param.skip(j + 1)
    }
}

/// The block-selection decision for a fence info-string: a plain `sh` fence
/// is selected, any other tag is not, and an `sh:` fence is selected when
/// both its context constraint and its OS constraint hold.
pub open spec fn selected(info: Seq<u8>, cx: Set<Seq<u8>>, os: Map<Seq<u8>, Seq<u8>>) -> bool {
    if !has_colon(info) {
        info == sh_bytes()
    } else {
        &&& lang_of(info) == sh_bytes()
        &&& ctx_ok(ctx_part(param_of(info)), cx)
        &&& os_ok(os_part(param_of(info)), os)
    }
}

/// Well-formedness of a fence info-string: for an `sh:` fence, every token
/// of its os-list must hold an `=`; any other fence asks nothing.
pub open spec fn fence_wf(info: Seq<u8>) -> bool {
    !has_colon(info) || lang_of(info) != sh_bytes() || os_list_wf(os_part(param_of(info)))
}

/// A fence whose language tag is not `sh` is never selected, whatever the
/// context set and the OS map.
pub proof fn lemma_non_sh_not_selected(
    info: Seq<u8>,
    cx: Set<Seq<u8>>,
    os: Map<Seq<u8>, Seq<u8>>,
)
    requires
        lang_of(info) != sh_bytes(),
    ensures
        !selected(info, cx, os),
{
    if !has_colon(info) {
        lemma_find_byte(info, 58);
        assert(info.take(find_byte(info, 58)) =~= info);
    }
}

/// The language tag `sh` holds no colon, so a plain `sh` fence takes the
/// no-parameter branch of the decision.
proof fn lemma_sh_no_colon()
    ensures
        !has_colon(sh_bytes()),
        find_byte(sh_bytes(), 58) == 2,
{
    let s = sh_bytes();
    assert(s.skip(1) =~= seq![104u8]);
    assert(seq![104u8].skip(1) =~= Seq::<u8>::empty());
    assert(find_byte(Seq::<u8>::empty(), 58) == 0);
    assert(find_byte(seq![104u8], 58) == 1);
    assert(find_byte(s, 58) == 2);
}

/// A plain `sh` fence (no colon) is always selected and well formed,
/// whatever the context set and the OS map.
pub proof fn lemma_plain_sh_selected(cx: Set<Seq<u8>>, os: Map<Seq<u8>, Seq<u8>>)
    ensures
        selected(sh_bytes(), cx, os),
        fence_wf(sh_bytes()),
{
    lemma_sh_no_colon();
}

/// The fence `sh:;` — both its context list and its os-list empty — is
/// always selected and well formed, whatever the context set and the OS map.
pub proof fn lemma_sh_empty_lists_selected(cx: Set<Seq<u8>>, os: Map<Seq<u8>, Seq<u8>>)
    ensures
        selected(seq![115u8, 104u8, 58u8, 59u8], cx, os),
        fence_wf(seq![115u8, 104u8, 58u8, 59u8]),
{
    let info = seq![115u8, 104u8, 58u8, 59u8];
    assert(info.skip(1) =~= seq![104u8, 58u8, 59u8]);
    assert(seq![104u8, 58u8, 59u8].skip(1) =~= seq![58u8, 59u8]);
    assert(find_byte(seq![58u8, 59u8], 58) == 0);
    assert(find_byte(seq![104u8, 58u8, 59u8], 58) == 1);
    assert(find_byte(info, 58) == 2);
    assert(has_colon(info));
    assert(lang_of(info) =~= sh_bytes());
    let param = param_of(info);
    assert(param =~= seq![59u8]);
    assert(find_byte(seq![59u8], 59) == 0);
    assert(ctx_part(param) =~= Seq::<u8>::empty());
    assert(os_part(param) =~= Seq::<u8>::empty());
    assert(ctx_ok(ctx_part(param), cx));
    assert(os_ok(os_part(param), os));
    assert(split_ws(Seq::<u8>::empty()) =~= Seq::<Seq<u8>>::empty());
    assert(os_list_wf(os_part(param)));
}

/// Monotonicity in context: growing the context set can only enable a
/// selection, never disable one.
pub proof fn lemma_context_monotone(
    info: Seq<u8>,
    cx1: Set<Seq<u8>>,
    cx2: Set<Seq<u8>>,
    os: Map<Seq<u8>, Seq<u8>>,
)
    requires
        cx1.subset_of(cx2),
        selected(info, cx1, os),
    ensures
        selected(info, cx2, os),
{
    if has_colon(info) {
        let c = ctx_part(param_of(info));
        if c.len() > 0 {
            let i = choose|i: int|
                0 <= i < split_on(c, 44).len() && cx1.contains(#[trigger] split_on(c, 44)[i]);
            assert(cx2.contains(split_on(c, 44)[i]));
        }
    }
}

/// The first whitespace of `a + c` is the first whitespace of `a`, when `c`
/// itself begins with whitespace.
proof fn lemma_find_ws_append(a: Seq<u8>, c: Seq<u8>)
    requires
        c.len() > 0,
        is_ws(c[0]),
    ensures
        find_ws(a + c) == find_ws(a),
    decreases a.len(),
{
    if a.len() == 0 {
        assert(a + c =~= c);
    } else if is_ws(a[0]) {
        assert((a + c)[0] == a[0]);
    } else {
        assert((a + c)[0] == a[0]);
        assert((a + c).skip(1) =~= a.skip(1) + c);
        lemma_find_ws_append(a.skip(1), c);
    }
}

/// Splitting at whitespace distributes over a space-joined concatenation.
pub proof fn lemma_split_ws_append(a: Seq<u8>, b: Seq<u8>)
    ensures
        split_ws(a + seq![32u8] + b) =~= split_ws(a) + split_ws(b),
    decreases a.len(),
{
    let s = a + seq![32u8] + b;
    if a.len() == 0 {
        assert(s =~= seq![32u8] + b);
        assert((seq![32u8] + b)[0] == 32u8);
        assert((seq![32u8] + b).skip(1) =~= b);
        assert(split_ws(a) =~= Seq::<Seq<u8>>::empty());
        assert(split_ws(a) + split_ws(b) =~= split_ws(b));
    } else if is_ws(a[0]) {
        assert(s[0] == a[0]);
        assert(s.skip(1) =~= a.skip(1) + seq![32u8] + b);
        lemma_split_ws_append(a.skip(1), b);
    } else {
        assert(s[0] == a[0]);
        assert(a + (seq![32u8] + b) =~= s);
        lemma_find_ws_append(a, seq![32u8] + b);
        let f = find_ws(a);
        lemma_find_ws(a);
        assert(find_ws(s) == f);
        assert(s.take(f) =~= a.take(f));
        if f == a.len() {
            assert(a.skip(f) =~= Seq::<u8>::empty());
            assert(a.take(f) =~= a);
            assert(split_ws(a.skip(f)) =~= Seq::<Seq<u8>>::empty());
            assert(split_ws(a) =~= seq![a]);
            assert(s.skip(f) =~= seq![32u8] + b);
            assert((seq![32u8] + b)[0] == 32u8);
            assert((seq![32u8] + b).skip(1) =~= b);
            assert(split_ws(seq![32u8] + b) == split_ws(b));
            assert(split_ws(s) == seq![a] + split_ws(b));
        } else {
            assert(s.skip(f) =~= a.skip(f) + seq![32u8] + b);
            lemma_split_ws_append(a.skip(f), b);
            assert(split_ws(s) == seq![a.take(f)] + (split_ws(a.skip(f)) + split_ws(b)));
            assert(seq![a.take(f)] + (split_ws(a.skip(f)) + split_ws(b)) =~= (seq![a.take(f)]
                + split_ws(a.skip(f))) + split_ws(b));
        }
    }
}

/// Monotonicity in OS alternatives: appending further space-separated
/// `KEY=VALUE` alternatives to a non-empty os-list keeps a true OS
/// constraint true.
pub proof fn lemma_os_alternatives_monotone(
    o: Seq<u8>,
    extra: Seq<u8>,
    os: Map<Seq<u8>, Seq<u8>>,
)
    requires
        o.len() > 0,
        os_ok(o, os),
    ensures
        os_ok(o + seq![32u8] + extra, os),
{
    lemma_split_ws_append(o, extra);
    let toks = split_ws(o + seq![32u8] + extra);
    let i = choose|i: int|
        0 <= i < split_ws(o).len() && token_matches(#[trigger] split_ws(o)[i], os);
    assert(toks[i] == split_ws(o)[i]);
    assert(0 <= i < toks.len() && token_matches(toks[i], os));
    assert((o + seq![32u8] + extra).len() > 0);
}

/// Whether `s` is exactly the language tag `sh`.
fn is_sh(s: &[u8]) -> (r: bool)
    ensures
        r == (s@ == sh_bytes()),
{
    if s.len() == 2 && s[0] == 115 && s[1] == 104 {
        proof {
            assert(s@ =~= sh_bytes());
        }
        true
    } else {
        proof {
            if s@ == sh_bytes() {
                assert(s@.len() == 2 && s@[0] == 115 && s@[1] == 104);
            }
        }
        false
    }
}

/// Whether a byte is ASCII whitespace.
fn is_ws_byte(b: u8) -> (r: bool)
    ensures
        r == is_ws(b),
{
    b == 32 || b == 9 || b == 10 || b == 12 || b == 13
}

/// Evaluates the context constraint for the context-list bytes `c`.
fn ctx_list_ok(c: &[u8], cx: &Context) -> (r: bool)
    ensures
        r == ctx_ok(c@, cx@),
{
    if c.len() == 0 {
        return true;
    }
    let ghost full = c@;
    let ghost toks = split_on(full, 44);
    let mut start: usize = 0;
    let mut done = false;
    let ghost mut k: int = 0;
    proof {
        assert(full.skip(0) =~= full);
    }
    while !done
        invariant
            0 <= start <= full.len(),
            c@ == full,
            full.len() > 0,
            0 <= k <= toks.len(),
            toks == split_on(full, 44),
            forall|j: int| 0 <= j < k ==> !cx@.contains(#[trigger] toks[j]),
            !done ==> toks.skip(k) == split_on(full.skip(start as int), 44),
            done ==> k == toks.len(),
        decreases full.len() - start + (if done { 0int } else { 1int }),
    {
        let ghost rest = full.skip(start as int);
        let e = scan_byte(c, start, 44);
        proof {
            lemma_find_byte(rest, 44);
        }
        let tok = sub_vec(c, start, e);
        proof {
            assert(tok@ =~= rest.take(e - start));
            if e == c.len() {
                assert(tok@ =~= rest);
                assert(split_on(rest, 44) =~= seq![rest]);
            } else {
                assert(rest.skip(e - start + 1) =~= full.skip(e + 1));
                assert(split_on(rest, 44) == seq![rest.take(e - start)] + split_on(
                    full.skip(e + 1),
                    44,
                ));
            }
            assert(split_on(rest, 44).len() >= 1);
            assert(toks.skip(k).len() >= 1);
            assert(toks.skip(k)[0] == toks[k]);
            assert(toks[k] == tok@);
        }
        if cx.has(tok.as_slice()) {
            proof {
                assert(0 <= k < toks.len() && cx@.contains(toks[k]));
            }
            return true;
        }
        if e == c.len() {
            proof {
                assert(toks.skip(k) =~= seq![rest]);
                k = k + 1;
            }
            done = true;
        } else {
            proof {
                assert(toks.skip(k) == seq![tok@] + split_on(full.skip(e + 1), 44));
                lemma_cons_skip(toks, k, tok@, split_on(full.skip(e + 1), 44));
                k = k + 1;
            }
            start = e + 1;
        }
    }
    proof {
        assert forall|i: int|
            0 <= i < split_on(full, 44).len() implies !cx@.contains(
            #[trigger] split_on(full, 44)[i],
        ) by {
            assert(!cx@.contains(toks[i]));
        }
    }
    false
}

/// Evaluates the OS constraint for the os-list bytes `o`, checking every
/// token for well-formedness: `Err(())` when some token lacks `=`.
fn os_list_check(o: &[u8], os: &OsMap) -> (r: Result<bool, ()>)
    ensures
        r is Ok <==> os_list_wf(o@),
        r matches Ok(b) ==> b == os_ok(o@, os@),
{
    if o.len() == 0 {
        return Ok(true);
    }
    let ghost full = o@;
    let ghost toks = split_ws(full);
    let mut start: usize = 0;
    let mut found = false;
    let ghost mut k: int = 0;
    proof {
        assert(full.skip(0) =~= full);
    }
    while start < o.len()
        invariant
            0 <= start <= full.len(),
            o@ == full,
            full.len() > 0,
            0 <= k <= toks.len(),
            toks == split_ws(full),
            forall|j: int| 0 <= j < k ==> token_has_eq(#[trigger] toks[j]),
            found == exists|j: int| 0 <= j < k && token_matches(#[trigger] toks[j], os@),
            toks.skip(k) == split_ws(full.skip(start as int)),
        decreases full.len() - start,
    {
        let ghost rest = full.skip(start as int);
        if is_ws_byte(o[start]) {
            proof {
                assert(rest.skip(1) =~= full.skip(start + 1));
            }
            start = start + 1;
            continue;
        }
        let e = scan_ws(o, start);
        proof {
            lemma_find_ws(rest);
            assert(find_ws(rest) >= 1);
        }
        let tok = sub_vec(o, start, e);
        proof {
            assert(!is_ws(rest[0]));
            assert(tok@ =~= rest.take(e - start));
            assert(rest.skip(e - start) =~= full.skip(e as int));
            assert(split_ws(rest) == seq![rest.take(e - start)] + split_ws(
                full.skip(e as int),
            ));
            assert(toks.skip(k).len() >= 1);
            assert(toks.skip(k) == seq![tok@] + split_ws(full.skip(e as int)));
            lemma_cons_skip(toks, k, tok@, split_ws(full.skip(e as int)));
        }
        let eq = scan_byte(tok.as_slice(), 0, 61);
        proof {
            assert(tok@.skip(0) =~= tok@);
            lemma_find_byte(tok@, 61);
        }
        if eq == tok.len() {
            proof {
                assert(0 <= k < toks.len() && !token_has_eq(toks[k]));
            }
            return Err(());
        }
        let key = sub_vec(tok.as_slice(), 0, eq);
        let value = sub_vec(tok.as_slice(), eq + 1, tok.len());
        proof {
            assert(key@ == token_key(tok@));
            assert(value@ =~= token_value(tok@));
        }
        if os.binds(key.as_slice(), value.as_slice()) {
            found = true;
        }
        proof {
            k = k + 1;
        }
        start = e;
    }
    proof {
        assert(full.skip(start as int) =~= Seq::<u8>::empty());
        assert(toks.skip(k) =~= Seq::<Seq<u8>>::empty());
        assert(k == toks.len());
    }
    Ok(found)
}

/// Decides whether a fenced block with info-string `info` is selected under
/// the context set `cx` and the OS map `os`. The decision is `selected`; the
/// error carries the info-string itself, and comes exactly when an `sh:`
/// fence holds an os-list token without `=`.
pub fn fence_decision(info: &[u8], cx: &Context, os: &OsMap) -> (r: Result<bool, MdshError>)
    ensures
        r is Ok <==> fence_wf(info@),
        r matches Ok(b) ==> b == selected(info@, cx@, os@),
        r matches Err(e) ==> e matches MdshError::MalformedFence(f) && f@ == info@,
{
    let n = info.len();
    proof {
        assert(info@.skip(0) =~= info@);
    }
    let ci = scan_byte(info, 0, 58);
    proof {
        lemma_find_byte(info@, 58);
    }
    if ci == n {
        proof {
            assert(info@.take(n as int) =~= info@);
        }
        return Ok(is_sh(info));
    }
    let lang = sub_vec(info, 0, ci);
    proof {
        assert(lang@ == lang_of(info@));
    }
    if !is_sh(lang.as_slice()) {
        return Ok(false);
    }
    let ghost param = param_of(info@);
    proof {
        assert(param =~= info@.skip(ci + 1));
    }
    let pj = scan_byte(info, ci + 1, 59);
    proof {
        lemma_find_byte(param, 59);
        assert(info@.skip(ci + 1) == param);
        assert(pj - (ci + 1) == find_byte(param, 59));
    }
    // The context list and the os-list, as ranges of `info`.
    let (csta, cend, osta) = if pj == n {
        (ci + 1, ci + 1, ci + 1)
    } else {
        (ci + 1, pj, pj + 1)
    };
    proof {
        if pj == n {
            assert(ctx_part(param) =~= info@.subrange(csta as int, cend as int));
            assert(os_part(param) =~= info@.subrange(osta as int, n as int));
        } else {
            assert(ctx_part(param) =~= info@.subrange(csta as int, cend as int));
            assert(os_part(param) =~= info@.subrange(osta as int, n as int));
        }
    }
    let clist = sub_vec(info, csta, cend);
    let olist = sub_vec(info, osta, n);
    let cok = ctx_list_ok(clist.as_slice(), cx);
    match os_list_check(olist.as_slice(), os) {
        Ok(ook) => Ok(cok && ook),
        Err(()) => {
            let f = sub_vec(info, 0, n);
            proof {
                assert(f@ =~= info@);
            }
            Err(MdshError::MalformedFence(f))
        },
    }
}

} // verus!
