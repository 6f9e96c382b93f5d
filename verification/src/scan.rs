use vstd::prelude::*;

verus! {

/// Whether a byte is an ASCII whitespace separator: space, tab, line feed,
/// form feed, carriage return.
pub open spec fn is_ws(b: u8) -> bool {
    b == 32 || b == 9 || b == 10 || b == 12 || b == 13
}

/// Index of the first occurrence of `b` in `s`, or `s.len()` if `b` does not occur.
pub open spec fn find_byte(s: Seq<u8>, b: u8) -> int
    decreases s.len(),
{
    if s.len() == 0 {
        0
    } else if s[0] == b {
        0
    } else {
        1 + find_byte(s.skip(1), b)
    }
}

/// Index of the first whitespace byte in `s`, or `s.len()` if none occurs.
pub open spec fn find_ws(s: Seq<u8>) -> int
    decreases s.len(),
{
    if s.len() == 0 {
        0
    } else if is_ws(s[0]) {
        0
    } else {
        1 + find_ws(s.skip(1))
    }
}

/// `find_byte` returns the first position holding `b`, within bounds.
pub proof fn lemma_find_byte(s: Seq<u8>, b: u8)
    ensures
        0 <= find_byte(s, b) <= s.len(),
        forall|j: int| 0 <= j < find_byte(s, b) ==> s[j] != b,
        find_byte(s, b) < s.len() ==> s[find_byte(s, b)] == b,
    decreases s.len(),
{
    if s.len() != 0 && s[0] != b {
        lemma_find_byte(s.skip(1), b);
        assert forall|j: int| 0 <= j < find_byte(s, b) implies s[j] != b by {
            if j >= 1 {
                assert(s.skip(1)[j - 1] != b);
                assert(s.skip(1)[j - 1] == s[j]);
            }
        }
    }
}

/// `find_ws` returns the first whitespace position, within bounds.
pub proof fn lemma_find_ws(s: Seq<u8>)
    ensures
        0 <= find_ws(s) <= s.len(),
        forall|j: int| 0 <= j < find_ws(s) ==> !is_ws(s[j]),
        find_ws(s) < s.len() ==> is_ws(s[find_ws(s)]),
    decreases s.len(),
{
    if s.len() != 0 && !is_ws(s[0]) {
        lemma_find_ws(s.skip(1));
        assert forall|j: int| 0 <= j < find_ws(s) implies !is_ws(s[j]) by {
            if j >= 1 {
                assert(!is_ws(s.skip(1)[j - 1]));
                assert(s.skip(1)[j - 1] == s[j]);
            }
        }
    }
}

/// Scans `s` from position `from` for the first occurrence of `b`.
pub fn scan_byte(s: &[u8], from: usize, b: u8) -> (i: usize)
    requires
        from <= s@.len(),
    ensures
        i == from + find_byte(s@.skip(from as int), b),
{
    proof {
        lemma_find_byte(s@.skip(from as int), b);
    }
    let mut i: usize = from;
    while i < s.len()
        invariant
            from <= i <= s@.len(),
            forall|j: int| from <= j < i ==> s@[j] != b,
        decreases s@.len() - i,
    {
        if s[i] == b {
            proof {
                lemma_find_byte_at(s@.skip(from as int), b, i - from);
            }
            return i;
        }
        i = i + 1;
    }
    proof {
        lemma_find_byte_absent(s@.skip(from as int), b);
    }
    i
}

/// If position `k` is the first holding `b`, then `find_byte` is `k`.
proof fn lemma_find_byte_at(s: Seq<u8>, b: u8, k: int)
    requires
        0 <= k < s.len(),
        s[k] == b,
        forall|j: int| 0 <= j < k ==> s[j] != b,
    ensures
        find_byte(s, b) == k,
{
    lemma_find_byte(s, b);
    if find_byte(s, b) < k {
        assert(s[find_byte(s, b)] == b);
    }
}

/// If `b` does not occur in `s`, `find_byte` is the length.
proof fn lemma_find_byte_absent(s: Seq<u8>, b: u8)
    requires
        forall|j: int| 0 <= j < s.len() ==> s[j] != b,
    ensures
        find_byte(s, b) == s.len(),
{
    lemma_find_byte(s, b);
    if find_byte(s, b) < s.len() {
        assert(s[find_byte(s, b)] == b);
    }
}

/// Scans `s` from position `from` for the first whitespace byte.
pub fn scan_ws(s: &[u8], from: usize) -> (i: usize)
    requires
        from <= s@.len(),
    ensures
        i == from + find_ws(s@.skip(from as int)),
{
    proof {
        lemma_find_ws(s@.skip(from as int));
    }
    let mut i: usize = from;
    while i < s.len()
        invariant
            from <= i <= s@.len(),
            forall|j: int| from <= j < i ==> !is_ws(s@[j]),
        decreases s@.len() - i,
    {
        let c = s[i];
        if c == 32 || c == 9 || c == 10 || c == 12 || c == 13 {
            proof {
                lemma_find_ws_at(s@.skip(from as int), i - from);
            }
            return i;
        }
        i = i + 1;
    }
    proof {
        lemma_find_ws_absent(s@.skip(from as int));
    }
    i
}

/// If position `k` is the first whitespace, then `find_ws` is `k`.
proof fn lemma_find_ws_at(s: Seq<u8>, k: int)
    requires
        0 <= k < s.len(),
        is_ws(s[k]),
        forall|j: int| 0 <= j < k ==> !is_ws(s[j]),
    ensures
        find_ws(s) == k,
{
    lemma_find_ws(s);
    if find_ws(s) < k {
        assert(is_ws(s[find_ws(s)]));
    }
}

/// If `s` holds no whitespace, `find_ws` is the length.
proof fn lemma_find_ws_absent(s: Seq<u8>)
    requires
        forall|j: int| 0 <= j < s.len() ==> !is_ws(s[j]),
    ensures
        find_ws(s) == s.len(),
{
    lemma_find_ws(s);
    if find_ws(s) < s.len() {
        assert(is_ws(s[find_ws(s)]));
    }
}

/// Peels the head off a suffix: when the suffix of `s` at `k` is `h` followed
/// by `t`, the suffix at `k + 1` is `t` and the element at `k` is `h`.
pub proof fn lemma_cons_skip<T>(s: Seq<T>, k: int, h: T, t: Seq<T>)
    requires
        0 <= k < s.len(),
        s.skip(k) == seq![h] + t,
    ensures
        s.skip(k + 1) =~= t,
        s[k] == h,
{
    assert(s.skip(k).len() == s.len() - k);
    assert(s.skip(k)[0] == s[k]);
    assert((seq![h] + t)[0] == h);
    assert forall|j: int| 0 <= j < s.len() - (k + 1) implies s.skip(k + 1)[j] == t[j] by {
        assert(s.skip(k + 1)[j] == s[k + 1 + j]);
        assert(s.skip(k)[j + 1] == s[k + 1 + j]);
        assert((seq![h] + t)[j + 1] == t[j]);
    }
}

/// A suffix decomposes into its head element and the next suffix.
pub proof fn lemma_skip_succ<T>(s: Seq<T>, k: int)
    requires
        0 <= k < s.len(),
    ensures
        s.skip(k) =~= seq![s[k]] + s.skip(k + 1),
{
    assert forall|j: int| 0 <= j < s.len() - k implies s.skip(k)[j] == (seq![s[k]] + s.skip(
        k + 1,
    ))[j] by {
        assert(s.skip(k)[j] == s[k + j]);
        if j >= 1 {
            assert(s.skip(k + 1)[j - 1] == s[k + j]);
        }
    }
}

/// Byte-for-byte equality of two byte slices.
pub fn bytes_eq(a: &[u8], b: &[u8]) -> (r: bool)
    ensures
        r == (a@ == b@),
{
    if a.len() != b.len() {
        proof {
            assert(a@ != b@);
        }
        return false;
    }
    let mut i: usize = 0;
    while i < a.len()
        invariant
            0 <= i <= a@.len(),
            a@.len() == b@.len(),
            forall|j: int| 0 <= j < i ==> a@[j] == b@[j],
        decreases a@.len() - i,
    {
        if a[i] != b[i] {
            return false;
        }
        i = i + 1;
    }
    proof {
        assert(a@ =~= b@);
    }
    true
}

/// Copies the byte range `[from, to)` of `s` into a fresh vector.
pub fn sub_vec(s: &[u8], from: usize, to: usize) -> (r: Vec<u8>)
    requires
        from <= to <= s@.len(),
    ensures
        r@ == s@.subrange(from as int, to as int),
{
    let mut r: Vec<u8> = Vec::new();
    let mut i: usize = from;
    while i < to
        invariant
            from <= i <= to <= s@.len(),
            r@ == s@.subrange(from as int, i as int),
        decreases to - i,
    {
        r.push(s[i]);
        proof {
            assert(r@ =~= s@.subrange(from as int, i + 1));
        }
        i = i + 1;
    }
    r
}

} // verus!
