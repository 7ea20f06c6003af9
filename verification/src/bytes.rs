//! Helpers on byte strings: whitespace trimming, digit runs, splitting
//! on a separator, prefix/suffix tests, and exact comparison.
//!
//! Record fields are held as `Vec<u8>`; every helper here carries an
//! exact contract over the corresponding `Seq<u8>`.

use vstd::prelude::*;

verus! {

/// The ASCII whitespace bytes: space, tab, line feed, form feed,
/// carriage return.
pub open spec fn is_ws(b: u8) -> bool {
    b == 32 || b == 9 || b == 10 || b == 12 || b == 13
}

/// `s` with its leading ASCII whitespace removed.
pub open spec fn trim_start_spec(s: Seq<u8>) -> Seq<u8>
    decreases s.len(),
{
    if s.len() > 0 && is_ws(s[0]) {
        trim_start_spec(s.subrange(1, s.len() as int))
    } else {
        s
    }
}

/// `s` with its trailing ASCII whitespace removed.
pub open spec fn trim_end_spec(s: Seq<u8>) -> Seq<u8>
    decreases s.len(),
{
    if s.len() > 0 && is_ws(s.last()) {
        trim_end_spec(s.drop_last())
    } else {
        s
    }
}

/// `s` with leading and trailing ASCII whitespace removed.
pub open spec fn trim_spec(s: Seq<u8>) -> Seq<u8> {
    trim_end_spec(trim_start_spec(s))
}

proof fn lemma_trim_start_window(s: Seq<u8>, lo: int)
    requires
        0 <= lo <= s.len(),
        forall|i: int| 0 <= i < lo ==> is_ws(s[i]),
        lo < s.len() ==> !is_ws(s[lo]),
    ensures
        trim_start_spec(s) == s.subrange(lo, s.len() as int),
    decreases lo,
{
    if lo == 0 {
        assert(s.subrange(0, s.len() as int) =~= s);
    } else {
        let t = s.subrange(1, s.len() as int);
        assert(forall|i: int| 0 <= i < lo - 1 ==> is_ws(t[i]));
        lemma_trim_start_window(t, lo - 1);
        assert(t.subrange(lo - 1, t.len() as int) =~= s.subrange(lo, s.len() as int));
    }
}

proof fn lemma_trim_end_window(s: Seq<u8>, hi: int)
    requires
        0 <= hi <= s.len(),
        forall|i: int| hi <= i < s.len() ==> is_ws(s[i]),
        hi > 0 ==> !is_ws(s[hi - 1]),
    ensures
        trim_end_spec(s) == s.subrange(0, hi),
    decreases s.len() - hi,
{
    if hi == s.len() {
        assert(s.subrange(0, s.len() as int) =~= s);
    } else {
        let t = s.drop_last();
        assert(t =~= s.subrange(0, s.len() - 1));
        lemma_trim_end_window(t, hi);
        assert(t.subrange(0, hi) =~= s.subrange(0, hi));
    }
}

/// Remove leading and trailing ASCII whitespace, as a fresh vector.
pub fn trim(v: &Vec<u8>) -> (r: Vec<u8>)
    ensures
        r@ == trim_spec(v@),
{
    let n = v.len();
    let mut lo: usize = 0;
    while lo < n && is_ws_byte(v[lo])
        invariant
            0 <= lo <= n,
            n == v@.len(),
            forall|i: int| 0 <= i < lo ==> is_ws(v@[i]),
        decreases n - lo,
    {
        lo = lo + 1;
    }
    let mut hi: usize = n;
    while hi > lo && is_ws_byte(v[hi - 1])
        invariant
            lo <= hi <= n,
            n == v@.len(),
            forall|i: int| hi <= i < n ==> is_ws(v@[i]),
            lo < n ==> !is_ws(v@[lo as int]),
        decreases hi,
    {
        hi = hi - 1;
    }
    let mut r: Vec<u8> = Vec::new();
    let mut j: usize = lo;
    while j < hi
        invariant
            lo <= j <= hi <= n,
            n == v@.len(),
            r@ =~= v@.subrange(lo as int, j as int),
        decreases hi - j,
    {
        r.push(v[j]);
        assert(r@ =~= v@.subrange(lo as int, j + 1));
        j = j + 1;
    }
    proof {
        lemma_trim_start_window(v@, lo as int);
        let t = v@.subrange(lo as int, n as int);
        if hi == lo {
            lemma_trim_end_window(t, 0);
        } else {
            assert(!is_ws(t[hi - lo - 1]));
            lemma_trim_end_window(t, hi - lo);
        }
        assert(t.subrange(0, hi - lo) =~= v@.subrange(lo as int, hi as int));
    }
    r
}

/// Executable test for a single ASCII whitespace byte.
pub fn is_ws_byte(b: u8) -> (r: bool)
    ensures
        r == is_ws(b),
{
    b == 32 || b == 9 || b == 10 || b == 12 || b == 13
}

/// Exact equality of two byte strings.
pub fn bytes_eq(a: &Vec<u8>, b: &Vec<u8>) -> (r: bool)
    ensures
        r == (a@ == b@),
{
    if a.len() != b.len() {
        assert(a@ !~= b@);
        return false;
    }
    let n = a.len();
    let mut i: usize = 0;
    while i < n
        invariant
            0 <= i <= n,
            n == a@.len() == b@.len(),
            forall|k: int| 0 <= k < i ==> a@[k] == b@[k],
        decreases n - i,
    {
        if a[i] != b[i] {
            return false;
        }
        i = i + 1;
    }
    proof {
        assert(a@ =~= b@);
    }
    true
}

/// Copy a byte string.
pub fn copy_bytes(v: &Vec<u8>) -> (r: Vec<u8>)
    ensures
        r@ == v@,
{
    let n = v.len();
    let mut r: Vec<u8> = Vec::new();
    let mut i: usize = 0;
    while i < n
        invariant
            0 <= i <= n,
            n == v@.len(),
            r@ =~= v@.subrange(0, i as int),
        decreases n - i,
    {
        r.push(v[i]);
        assert(r@ =~= v@.subrange(0, i + 1));
        i = i + 1;
    }
    proof {
        assert(v@.subrange(0, n as int) =~= v@);
    }
    r
}

/// Copy the range `from..to` of a byte string.
pub fn subvec(v: &Vec<u8>, from: usize, to: usize) -> (r: Vec<u8>)
    requires
        from <= to <= v@.len(),
    ensures
        r@ == v@.subrange(from as int, to as int),
{
    let mut r: Vec<u8> = Vec::new();
    let mut j: usize = from;
    while j < to
        invariant
            from <= j <= to <= v@.len(),
            r@ =~= v@.subrange(from as int, j as int),
        decreases to - j,
    {
        r.push(v[j]);
        assert(r@ =~= v@.subrange(from as int, j + 1));
        j = j + 1;
    }
    r
}

/// How `filter` treats one appended byte string.
pub proof fn lemma_filter_push(s: Seq<Seq<u8>>, pred: spec_fn(Seq<u8>) -> bool, x: Seq<u8>)
    ensures
        s.push(x).filter(pred) == if pred(x) {
            s.filter(pred).push(x)
        } else {
            s.filter(pred)
        },
{
    reveal(Seq::<_>::filter);
    assert(s.push(x).drop_last() =~= s);
    assert(s.push(x).last() == x);
}

/// Does `v` begin with `prefix`?
pub fn starts_with(v: &Vec<u8>, prefix: &Vec<u8>) -> (r: bool)
    ensures
        r == (v@.len() >= prefix@.len() && v@.subrange(0, prefix@.len() as int) == prefix@),
{
    if v.len() < prefix.len() {
        return false;
    }
    let n = prefix.len();
    let mut i: usize = 0;
    while i < n
        invariant
            0 <= i <= n,
            n == prefix@.len() <= v@.len(),
            forall|k: int| 0 <= k < i ==> v@[k] == prefix@[k],
        decreases n - i,
    {
        if v[i] != prefix[i] {
            assert(v@.subrange(0, n as int)[i as int] != prefix@[i as int]);
            return false;
        }
        i = i + 1;
    }
    proof {
        assert(v@.subrange(0, n as int) =~= prefix@);
    }
    true
}

/// Does `v` end with `suffix`?
pub fn ends_with(v: &Vec<u8>, suffix: &Vec<u8>) -> (r: bool)
    ensures
        r == (v@.len() >= suffix@.len() && v@.subrange(
            v@.len() - suffix@.len(),
            v@.len() as int,
        ) == suffix@),
{
    if v.len() < suffix.len() {
        return false;
    }
    let n = suffix.len();
    let vn = v.len();
    let off = vn - n;
    let mut i: usize = 0;
    while i < n
        invariant
            0 <= i <= n,
            n == suffix@.len() <= v@.len(),
            vn == v@.len(),
            off == vn - n,
            forall|k: int| 0 <= k < i ==> v@[off + k] == suffix@[k],
        decreases n - i,
    {
        if v[off + i] != suffix[i] {
            assert(v@.subrange(off as int, v@.len() as int)[i as int] != suffix@[i as int]);
            return false;
        }
        i = i + 1;
    }
    proof {
        assert(v@.subrange(off as int, v@.len() as int) =~= suffix@);
    }
    true
}

/// Splitting `s` on a separator byte, in the manner of `str::split`:
/// the empty string yields one empty piece, and each separator starts
/// a new piece.
pub open spec fn split_on(s: Seq<u8>, sep: u8) -> Seq<Seq<u8>>
    decreases s.len(),
{
    if s.len() == 0 {
        seq![Seq::<u8>::empty()]
    } else if s[0] == sep {
        seq![Seq::<u8>::empty()] + split_on(s.subrange(1, s.len() as int), sep)
    } else {
        let rest = split_on(s.subrange(1, s.len() as int), sep);
        seq![seq![s[0]] + rest[0]] + rest.subrange(1, rest.len() as int)
    }
}

proof fn lemma_split_on_len(s: Seq<u8>, sep: u8)
    ensures
        split_on(s, sep).len() >= 1,
    decreases s.len(),
{
    if s.len() > 0 {
        lemma_split_on_len(s.subrange(1, s.len() as int), sep);
    }
}

/// How one more byte extends a split: a separator opens a new empty
/// piece; any other byte lands at the end of the last piece.
proof fn lemma_split_on_push(s: Seq<u8>, sep: u8, b: u8)
    ensures
        split_on(s, sep).len() >= 1,
        b == sep ==> split_on(s.push(b), sep) == split_on(s, sep).push(Seq::<u8>::empty()),
        b != sep ==> split_on(s.push(b), sep) == split_on(s, sep).update(
            split_on(s, sep).len() - 1,
            split_on(s, sep).last().push(b),
        ),
    decreases s.len(),
{
    lemma_split_on_len(s, sep);
    if s.len() == 0 {
        let p = s.push(b);
        assert(p[0] == b);
        assert(p.subrange(1, p.len() as int) =~= Seq::<u8>::empty());
        assert(split_on(Seq::<u8>::empty(), sep) == seq![Seq::<u8>::empty()]);
        assert(split_on(p, sep) == if p[0] == sep {
            seq![Seq::<u8>::empty()] + split_on(p.subrange(1, p.len() as int), sep)
        } else {
            (seq![seq![p[0]] + split_on(p.subrange(1, p.len() as int), sep)[0]] + split_on(
                p.subrange(1, p.len() as int),
                sep,
            ).subrange(1, split_on(p.subrange(1, p.len() as int), sep).len() as int))
        });
        if b == sep {
            assert(split_on(p, sep) =~~= split_on(s, sep).push(Seq::<u8>::empty()));
        } else {
            assert(seq![p[0]] + split_on(Seq::<u8>::empty(), sep)[0] =~= seq![b]);
            assert(split_on(p, sep) =~~= split_on(s, sep).update(
                0,
                split_on(s, sep).last().push(b),
            ));
        }
    } else {
        let t = s.subrange(1, s.len() as int);
        let p = s.push(b);
        assert(p.subrange(1, p.len() as int) =~= t.push(b));
        lemma_split_on_push(t, sep, b);
        lemma_split_on_len(t.push(b), sep);
        let rt = split_on(t, sep);
        let rp = split_on(t.push(b), sep);
        assert(p[0] == s[0]);
        assert(split_on(p, sep) == if p[0] == sep {
            seq![Seq::<u8>::empty()] + rp
        } else {
            (seq![seq![p[0]] + rp[0]] + rp.subrange(1, rp.len() as int))
        });
        if s[0] == sep {
            if b == sep {
                assert(split_on(p, sep) =~~= split_on(s, sep).push(Seq::<u8>::empty()));
            } else {
                assert(split_on(p, sep) =~~= split_on(s, sep).update(
                    split_on(s, sep).len() - 1,
                    split_on(s, sep).last().push(b),
                ));
            }
        } else {
            if b == sep {
                assert(rp[0] == rt[0]);
                assert(rp.subrange(1, rp.len() as int) =~~= rt.subrange(1, rt.len() as int).push(
                    Seq::<u8>::empty(),
                ));
                assert(split_on(p, sep) =~~= split_on(s, sep).push(Seq::<u8>::empty()));
            } else {
                if rt.len() == 1 {
                    assert(rp =~~= rt.update(0, rt.last().push(b)));
                    assert(rp[0] == rt[0].push(b));
                    assert(rp.subrange(1, rp.len() as int) =~~= rt.subrange(1, rt.len() as int));
                    assert(split_on(p, sep) =~~= split_on(s, sep).update(
                        split_on(s, sep).len() - 1,
                        split_on(s, sep).last().push(b),
                    ));
                } else {
                    assert(rp[0] == rt[0]);
                    assert(rp.subrange(1, rp.len() as int) =~~= rt.subrange(
                        1,
                        rt.len() as int,
                    ).update(rt.len() - 2, rt.last().push(b)));
                    assert(split_on(p, sep) =~~= split_on(s, sep).update(
                        split_on(s, sep).len() - 1,
                        split_on(s, sep).last().push(b),
                    ));
                }
            }
        }
    }
}

/// Split `v` on a separator byte into owned pieces.
pub fn split_bytes(v: &Vec<u8>, sep: u8) -> (r: Vec<Vec<u8>>)
    ensures
        views_of(r@) == split_on(v@, sep),
{
    let n = v.len();
    let mut done: Vec<Vec<u8>> = Vec::new();
    let mut cur: Vec<u8> = Vec::new();
    let mut j: usize = 0;
    proof {
        assert(v@.subrange(0, 0) =~= Seq::<u8>::empty());
        assert(views_of(done@).push(cur@) =~~= split_on(v@.subrange(0, 0), sep));
    }
    while j < n
        invariant
            0 <= j <= n,
            n == v@.len(),
            views_of(done@).push(cur@) == split_on(v@.subrange(0, j as int), sep),
        decreases n - j,
    {
        let b = v[j];
        proof {
            assert(v@.subrange(0, j + 1) =~= v@.subrange(0, j as int).push(v@[j as int]));
            lemma_split_on_push(v@.subrange(0, j as int), sep, b);
        }
        if b == sep {
            done.push(cur);
            cur = Vec::new();
            proof {
                assert(views_of(done@).push(cur@) =~~= split_on(v@.subrange(0, j + 1), sep));
            }
        } else {
            cur.push(b);
            proof {
                let prev = split_on(v@.subrange(0, j as int), sep);
                assert(views_of(done@).push(cur@) =~~= prev.update(
                    prev.len() - 1,
                    prev.last().push(b),
                ));
            }
        }
        j = j + 1;
    }
    done.push(cur);
    proof {
        assert(v@.subrange(0, n as int) =~= v@);
        assert(views_of(done@) =~~= split_on(v@, sep));
    }
    done
}

/// The views of a sequence of byte vectors.
pub open spec fn views_of(vs: Seq<Vec<u8>>) -> Seq<Seq<u8>> {
    vs.map_values(|v: Vec<u8>| v@)
}

/// The views of a sequence of rows, each row a vector of byte vectors.
pub open spec fn rows_view(rows: Seq<Vec<Vec<u8>>>) -> Seq<Seq<Seq<u8>>> {
    rows.map_values(|r: Vec<Vec<u8>>| views_of(r@))
}

} // verus!
