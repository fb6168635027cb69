//! Byte-string helpers for paths and ignore-file text: trimming, splitting
//! into lines, joining path segments and finding the last path segment.

use vstd::prelude::*;

verus! {

/// ASCII whitespace, as trimmed from the ends of an ignore-file line.
pub open spec fn is_space(b: u8) -> bool {
    b == 32 || (9 <= b && b <= 13)
}

fn is_space_byte(b: u8) -> (r: bool)
    ensures
        r == is_space(b),
{
    b == 32 || (9 <= b && b <= 13)
}

/// The sequence with leading whitespace removed.
pub open spec fn spec_trim_start(s: Seq<u8>) -> Seq<u8>
    decreases s.len(),
{
    if s.len() > 0 && is_space(s.first()) {
        spec_trim_start(s.drop_first())
    } else {
        s
    }
}

/// The sequence with trailing whitespace removed.
pub open spec fn spec_trim_end(s: Seq<u8>) -> Seq<u8>
    decreases s.len(),
{
    if s.len() > 0 && is_space(s.last()) {
        spec_trim_end(s.drop_last())
    } else {
        s
    }
}

/// The sequence with whitespace removed from both ends.
pub open spec fn spec_trim(s: Seq<u8>) -> Seq<u8> {
    spec_trim_end(spec_trim_start(s))
}

proof fn lemma_trim_start_skip(s: Seq<u8>, i: int)
    requires
        0 <= i <= s.len(),
        forall|k: int| 0 <= k < i ==> is_space(s[k]),
        i < s.len() ==> !is_space(s[i]),
    ensures
        spec_trim_start(s) == s.skip(i),
    decreases i,
{
    if i == 0 {
        assert(s.skip(0) =~= s);
    } else {
        assert(is_space(s.first()));
        lemma_trim_start_skip(s.drop_first(), i - 1);
        assert(s.drop_first().skip(i - 1) =~= s.skip(i));
    }
}

proof fn lemma_trim_end_take(s: Seq<u8>, j: int)
    requires
        0 <= j <= s.len(),
        forall|k: int| j <= k < s.len() ==> is_space(s[k]),
        j > 0 ==> !is_space(s[j - 1]),
    ensures
        spec_trim_end(s) == s.take(j),
    decreases s.len() - j,
{
    if j == s.len() {
        assert(s.take(j) =~= s);
    } else {
        assert(is_space(s.last()));
        lemma_trim_end_take(s.drop_last(), j);
        assert(s.drop_last().take(j) =~= s.take(j));
    }
}

/// Removes ASCII whitespace from both ends of a byte string.
pub fn trim(s: &Vec<u8>) -> (r: Vec<u8>)
    ensures
        r@ == spec_trim(s@),
{
    let mut i: usize = 0;
    while i < s.len() && is_space_byte(s[i])
        invariant
            i <= s.len(),
            forall|k: int| 0 <= k < i as int ==> is_space(s@[k]),
        decreases s.len() - i,
    {
        i = i + 1;
    }
    let mut j: usize = s.len();
    while j > i && is_space_byte(s[j - 1])
        invariant
            i <= j <= s.len(),
            forall|k: int| j as int <= k < s@.len() ==> is_space(s@[k]),
        decreases j,
    {
        j = j - 1;
    }
    let mut r: Vec<u8> = Vec::new();
    let mut k: usize = i;
    while k < j
        invariant
            i <= k <= j <= s.len(),
            r@ == s@.subrange(i as int, k as int),
        decreases j - k,
    {
        let b = s[k];
        r.push(b);
        proof {
            assert(r@ =~= s@.subrange(i as int, k as int + 1));
        }
        k = k + 1;
    }
    proof {
        lemma_trim_start_skip(s@, i as int);
        let t = s@.skip(i as int);
        assert(forall|k: int| (j - i) <= k < t.len() ==> is_space(t[k]));
        if j > i {
            assert(t[j - i - 1] == s@[j - 1]);
        }
        lemma_trim_end_take(t, j - i);
        assert(r@ =~= t.take(j - i));
    }
    r
}

/// The lines of `s` up to the next newline, with `cur` the part of the
/// current line already consumed. A trailing newline opens no extra line.
pub open spec fn lines_acc(s: Seq<u8>, cur: Seq<u8>) -> Seq<Seq<u8>>
    decreases s.len(),
{
    if s.len() == 0 {
        if cur.len() > 0 {
            seq![cur]
        } else {
            Seq::empty()
        }
    } else if s.first() == 10 {
        seq![cur] + lines_acc(s.drop_first(), Seq::empty())
    } else {
        lines_acc(s.drop_first(), cur.push(s.first()))
    }
}

/// The lines of a byte string, split on newline bytes.
pub open spec fn spec_lines(s: Seq<u8>) -> Seq<Seq<u8>> {
    lines_acc(s, Seq::empty())
}

/// Relates a push on a vector to a push on its deep view.
pub proof fn lemma_deep_view_push<T: DeepView>(v: Vec<T>, w: Vec<T>, x: T)
    requires
        w@ == v@.push(x),
    ensures
        w.deep_view() == v.deep_view().push(x.deep_view()),
{
    assert(w.deep_view() =~= v.deep_view().push(x.deep_view()));
}

/// Splits a byte string into its lines.
pub fn split_lines(s: &Vec<u8>) -> (r: Vec<Vec<u8>>)
    ensures
        r.deep_view() == spec_lines(s@),
{
    let mut out: Vec<Vec<u8>> = Vec::new();
    let mut cur: Vec<u8> = Vec::new();
    let mut i: usize = 0;
    proof {
        assert(out.deep_view() =~= Seq::<Seq<u8>>::empty());
        assert(s@.skip(0) =~= s@);
        assert(Seq::<Seq<u8>>::empty() + lines_acc(s@, Seq::empty()) =~= lines_acc(
            s@,
            Seq::empty(),
        ));
    }
    while i < s.len()
        invariant
            i <= s.len(),
            spec_lines(s@) == out.deep_view() + lines_acc(s@.skip(i as int), cur@),
        decreases s.len() - i,
    {
        let ghost prev_out = out;
        let ghost prev_cur = cur@;
        let b = s[i];
        proof {
            assert(s@.skip(i as int).first() == s@[i as int]);
            assert(s@.skip(i as int).drop_first() =~= s@.skip(i as int + 1));
        }
        if b == 10 {
            let ghost cur_vec = cur;
            out.push(cur);
            cur = Vec::new();
            proof {
                lemma_deep_view_push(prev_out, out, cur_vec);
                assert(out.deep_view().last() == prev_cur) by {
                    assert(out@[out@.len() - 1]@ == prev_cur);
                }
                assert(out.deep_view() =~= prev_out.deep_view().push(prev_cur));
                assert(lines_acc(s@.skip(i as int), prev_cur) == seq![prev_cur] + lines_acc(
                    s@.skip(i as int + 1),
                    Seq::empty(),
                ));
                assert(prev_out.deep_view() + (seq![prev_cur] + lines_acc(
                    s@.skip(i as int + 1),
                    cur@,
                )) =~= out.deep_view() + lines_acc(s@.skip(i as int + 1), cur@));
            }
        } else {
            cur.push(b);
            proof {
                assert(cur@ == prev_cur.push(s@[i as int]));
            }
        }
        i = i + 1;
    }
    proof {
        assert(s@.skip(i as int) =~= Seq::empty());
        assert(s@.skip(i as int).len() == 0);
    }
    if cur.len() > 0 {
        let ghost prev_out = out;
        let ghost prev_cur = cur@;
        let ghost cur_vec = cur;
        out.push(cur);
        proof {
            lemma_deep_view_push(prev_out, out, cur_vec);
            assert(out.deep_view().last() == prev_cur) by {
                assert(out@[out@.len() - 1]@ == prev_cur);
            }
            assert(out.deep_view() =~= prev_out.deep_view().push(prev_cur));
            assert(lines_acc(Seq::empty(), prev_cur) == seq![prev_cur]);
            assert(prev_out.deep_view() + seq![prev_cur] =~= out.deep_view());
        }
    }
    out
}

/// Joins a directory path and a child name with a separator; an empty
/// directory path leaves the name unchanged.
pub open spec fn spec_join(dir: Seq<u8>, name: Seq<u8>) -> Seq<u8> {
    if dir.len() == 0 {
        name
    } else {
        dir + seq![47u8] + name
    }
}

/// Appends the bytes of `src` to `dst`.
pub fn append_bytes(dst: &mut Vec<u8>, src: &Vec<u8>)
    ensures
        final(dst)@ == old(dst)@ + src@,
{
    let mut k: usize = 0;
    while k < src.len()
        invariant
            k <= src.len(),
            dst@ == old(dst)@ + src@.take(k as int),
        decreases src.len() - k,
    {
        let b = src[k];
        dst.push(b);
        proof {
            assert(old(dst)@ + src@.take(k as int + 1) =~= (old(dst)@ + src@.take(k as int)).push(
                src@[k as int],
            ));
        }
        k = k + 1;
    }
    proof {
        assert(src@.take(src@.len() as int) =~= src@);
    }
}

/// Copies a byte string.
pub fn copy_bytes(src: &Vec<u8>) -> (r: Vec<u8>)
    ensures
        r@ == src@,
{
    let mut r: Vec<u8> = Vec::new();
    append_bytes(&mut r, src);
    proof {
        assert(Seq::<u8>::empty() + src@ =~= src@);
    }
    r
}

/// Joins a directory path and a child name into the child's path.
pub fn join_path(dir: &Vec<u8>, name: &Vec<u8>) -> (r: Vec<u8>)
    ensures
        r@ == spec_join(dir@, name@),
{
    if dir.len() == 0 {
        copy_bytes(name)
    } else {
        let mut r = copy_bytes(dir);
        r.push(47);
        append_bytes(&mut r, name);
        proof {
            assert(r@ =~= dir@ + seq![47u8] + name@);
        }
        r
    }
}

/// The last path segment with `cur` the part of the current segment already
/// consumed; a separator starts a fresh segment.
pub open spec fn basename_acc(p: Seq<u8>, cur: Seq<u8>) -> Seq<u8>
    decreases p.len(),
{
    if p.len() == 0 {
        cur
    } else if p.first() == 47 {
        basename_acc(p.drop_first(), Seq::empty())
    } else {
        basename_acc(p.drop_first(), cur.push(p.first()))
    }
}

/// The last segment of a path: everything after the last separator.
pub open spec fn spec_basename(p: Seq<u8>) -> Seq<u8> {
    basename_acc(p, Seq::empty())
}

/// Whether the last path segment starts with a dot.
pub open spec fn spec_hidden(p: Seq<u8>) -> bool {
    spec_basename(p).len() > 0 && spec_basename(p)[0] == 46
}

proof fn lemma_basename_acc_no_slash(p: Seq<u8>, cur: Seq<u8>)
    requires
        forall|k: int| 0 <= k < p.len() ==> p[k] != 47,
    ensures
        basename_acc(p, cur) == cur + p,
    decreases p.len(),
{
    if p.len() == 0 {
        assert(cur + p =~= cur);
    } else {
        assert(p.first() == p[0]);
        lemma_basename_acc_no_slash(p.drop_first(), cur.push(p.first()));
        assert(cur.push(p.first()) + p.drop_first() =~= cur + p);
    }
}

proof fn lemma_basename_acc_after_slash(p: Seq<u8>, cur: Seq<u8>, i: int)
    requires
        1 <= i <= p.len(),
        p[i - 1] == 47,
        forall|k: int| i <= k < p.len() ==> p[k] != 47,
    ensures
        basename_acc(p, cur) == p.skip(i),
    decreases p.len(),
{
    if i == 1 {
        assert(p.first() == 47);
        lemma_basename_acc_no_slash(p.drop_first(), Seq::empty());
        assert(Seq::<u8>::empty() + p.drop_first() =~= p.skip(1));
    } else {
        let q = p.drop_first();
        assert(q[i - 2] == p[i - 1]);
        assert(forall|k: int| i - 1 <= k < q.len() ==> q[k] != 47);
        if p.first() == 47 {
            lemma_basename_acc_after_slash(q, Seq::empty(), i - 1);
        } else {
            lemma_basename_acc_after_slash(q, cur.push(p.first()), i - 1);
        }
        assert(q.skip(i - 1) =~= p.skip(i));
    }
}

proof fn lemma_basename_char(p: Seq<u8>, i: int)
    requires
        0 <= i <= p.len(),
        i > 0 ==> p[i - 1] == 47,
        forall|k: int| i <= k < p.len() ==> p[k] != 47,
    ensures
        spec_basename(p) == p.skip(i),
{
    if i == 0 {
        lemma_basename_acc_no_slash(p, Seq::empty());
        assert(Seq::<u8>::empty() + p =~= p.skip(0));
    } else {
        lemma_basename_acc_after_slash(p, Seq::empty(), i);
    }
}

/// Whether the last segment of a path starts with a dot.
pub fn is_hidden_path(p: &Vec<u8>) -> (r: bool)
    ensures
        r == spec_hidden(p@),
{
    let mut i: usize = p.len();
    while i > 0 && p[i - 1] != 47
        invariant
            i <= p.len(),
            forall|k: int| i as int <= k < p@.len() ==> p@[k] != 47,
        decreases i,
    {
        i = i - 1;
    }
    proof {
        lemma_basename_char(p@, i as int);
    }
    if i < p.len() {
        p[i] == 46
    } else {
        proof {
            assert(p@.skip(i as int).len() == 0);
        }
        false
    }
}

/// Copies a byte string without its first byte.
pub fn drop_first_byte(v: &Vec<u8>) -> (r: Vec<u8>)
    requires
        v@.len() >= 1,
    ensures
        r@ == v@.drop_first(),
{
    let mut r: Vec<u8> = Vec::new();
    let mut k: usize = 1;
    proof {
        assert(r@ =~= v@.subrange(1, 1));
    }
    while k < v.len()
        invariant
            1 <= k <= v.len(),
            r@ == v@.subrange(1, k as int),
        decreases v.len() - k,
    {
        let b = v[k];
        r.push(b);
        proof {
            assert(r@ =~= v@.subrange(1, k as int + 1));
        }
        k = k + 1;
    }
    proof {
        assert(r@ =~= v@.drop_first());
    }
    r
}

/// Compares two byte strings for equality.
pub fn bytes_eq(a: &Vec<u8>, b: &Vec<u8>) -> (r: bool)
    ensures
        r == (a@ == b@),
{
    if a.len() != b.len() {
        return false;
    }
    let mut i: usize = 0;
    while i < a.len()
        invariant
            a@.len() == b@.len(),
            i <= a.len(),
            forall|k: int| 0 <= k < i as int ==> a@[k] == b@[k],
        decreases a.len() - i,
    {
        if a[i] != b[i] {
            return false;
        }
        i = i + 1;
    }
    proof {
        assert(a@ =~= b@);
    }
    true
}

} // verus!
