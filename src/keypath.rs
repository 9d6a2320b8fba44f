use vstd::prelude::*;
use vstd::string::StrSliceExecFns;
use vstd::string::StringExecFns;

verus! {

/// The pieces of `s` between the occurrences of `sep`, in order. Text
/// without `sep` is one piece; the empty text is one empty piece.
pub open spec fn split_by(s: Seq<char>, sep: char) -> Seq<Seq<char>>
    decreases s.len(),
{
    if s.len() == 0 {
        seq![Seq::empty()]
    } else {
        let prev = split_by(s.drop_last(), sep);
        if s.last() == sep {
            prev.push(Seq::empty())
        } else {
            prev.update(prev.len() - 1, prev.last().push(s.last()))
        }
    }
}

/// The segments of a dotted key.
pub open spec fn split_dots(s: Seq<char>) -> Seq<Seq<char>> {
    split_by(s, '.')
}

/// The segments joined with dots.
pub open spec fn join_dots(p: Seq<Seq<char>>) -> Seq<char>
    decreases p.len(),
{
    if p.len() == 0 {
        Seq::empty()
    } else if p.len() == 1 {
        p[0]
    } else {
        join_dots(p.drop_last()) + seq!['.'] + p.last()
    }
}

pub open spec fn strings_view(v: Seq<String>) -> Seq<Seq<char>> {
    Seq::new(v.len(), |i: int| v[i]@)
}

pub proof fn lemma_split_dots_len(s: Seq<char>)
    ensures
        split_dots(s).len() >= 1,
{
    lemma_split_by_len(s, '.');
}

pub proof fn lemma_split_by_len(s: Seq<char>, sep: char)
    ensures
        split_by(s, sep).len() >= 1,
    decreases s.len(),
{
    if s.len() > 0 {
        lemma_split_by_len(s.drop_last(), sep);
    }
}

/// Joining the segments of a key with dots gives the key back, and no
/// segment holds a dot.
pub proof fn lemma_join_split(s: Seq<char>)
    ensures
        join_dots(split_dots(s)) == s,
        forall|i: int| 0 <= i < split_dots(s).len() ==> !(#[trigger] split_dots(s)[i]).contains('.'),
    decreases s.len(),
{
    lemma_split_dots_len(s);
    if s.len() > 0 {
        let t = s.drop_last();
        lemma_join_split(t);
        lemma_split_dots_len(t);
        let prev = split_dots(t);
        assert(split_dots(s) == split_by(s, '.'));
        if s.last() == '.' {
            let cur = prev.push(Seq::empty());
            assert(cur.drop_last() =~= prev);
            assert(join_dots(cur) =~= s);
            assert forall|i: int| 0 <= i < cur.len() implies !(#[trigger] cur[i]).contains('.') by {
                if i < prev.len() {
                    assert(cur[i] == prev[i]);
                }
            }
        } else {
            let cur = prev.update(prev.len() - 1, prev.last().push(s.last()));
            assert(s =~= t.push(s.last()));
            assert forall|i: int| 0 <= i < cur.len() implies !(#[trigger] cur[i]).contains('.') by {
                if i < prev.len() - 1 {
                    assert(cur[i] == prev[i]);
                } else {
                    let seg = prev.last().push(s.last());
                    assert(!prev[prev.len() - 1].contains('.'));
                    if seg.contains('.') {
                        let j = choose|j: int| 0 <= j < seg.len() && seg[j] == '.';
                        if j < seg.len() - 1 {
                            assert(prev.last()[j] == '.');
                        }
                    }
                }
            }
            if prev.len() == 1 {
                assert(join_dots(cur) =~= s);
            } else {
                assert(cur.drop_last() =~= prev.drop_last());
                assert(join_dots(cur) =~= s);
            }
        }
    }
}

/// The segments of the dotted key `key`.
pub fn split_key(key: &str) -> (r: Vec<String>)
    ensures
        strings_view(r@) == split_dots(key@),
        r@.len() >= 1,
{
    split_text(key, '.')
}

/// The pieces of `key` between the occurrences of `sep`.
pub fn split_text(key: &str, sep: char) -> (r: Vec<String>)
    ensures
        strings_view(r@) == split_by(key@, sep),
        r@.len() >= 1,
{
    let n = key.unicode_len();
    let mut segs: Vec<String> = Vec::new();
    let mut start: usize = 0;
    let mut i: usize = 0;
    assert(key@.subrange(0, 0) =~= Seq::<char>::empty());
    assert(strings_view(segs@) =~= Seq::<Seq<char>>::empty());
    assert(strings_view(segs@).push(key@.subrange(0, 0)) =~= seq![Seq::<char>::empty()]);
    while i < n
        invariant
            start <= i <= n,
            n == key@.len(),
            strings_view(segs@).push(key@.subrange(start as int, i as int)) == split_by(
                key@.subrange(0, i as int),
                sep,
            ),
        decreases n - i,
    {
        let c = key.get_char(i);
        let ghost before = strings_view(segs@).push(key@.subrange(start as int, i as int));
        assert(key@.subrange(0, i + 1).drop_last() =~= key@.subrange(0, i as int));
        let ghost old_sv = strings_view(segs@);
        if c == sep {
            let part = String::from_str(key.substring_char(start, i));
            segs.push(part);
            assert(strings_view(segs@) =~= old_sv.push(key@.subrange(start as int, i as int)));
            start = i + 1;
            assert(key@.subrange(start as int, i + 1) =~= Seq::<char>::empty());
            assert(strings_view(segs@).push(key@.subrange(start as int, i + 1)) =~= before.push(
                Seq::empty(),
            ));
        } else {
            assert(key@.subrange(start as int, i + 1) =~= key@.subrange(start as int, i as int).push(c));
            assert(strings_view(segs@).push(key@.subrange(start as int, i + 1)) =~= before.update(
                before.len() - 1,
                before.last().push(c),
            ));
        }
        i = i + 1;
    }
    let last = String::from_str(key.substring_char(start, n));
    segs.push(last);
    assert(key@.subrange(0, n as int) =~= key@);
    assert(strings_view(segs@) =~= split_by(key@, sep));
    segs
}

/// The segments `segs` joined with dots.
pub fn join_key(segs: &Vec<String>) -> (r: String)
    ensures
        r@ == join_dots(strings_view(segs@)),
{
    let mut r = String::new();
    let mut i: usize = 0;
    let dot = ".";
    proof {
        reveal_strlit(".");
    }
    while i < segs.len()
        invariant
            i <= segs.len(),
            dot@ == seq!['.'],
            r@ == join_dots(strings_view(segs@).subrange(0, i as int)),
        decreases segs.len() - i,
    {
        let ghost p = strings_view(segs@).subrange(0, i + 1);
        assert(p.drop_last() =~= strings_view(segs@).subrange(0, i as int));
        if i > 0 {
            r.append(dot);
        }
        r.append(segs[i].as_str());
        i = i + 1;
    }
    assert(strings_view(segs@).subrange(0, segs@.len() as int) =~= strings_view(segs@));
    r
}

/// Whether `part` occurs in `text` as a contiguous run.
pub open spec fn is_infix(part: Seq<char>, text: Seq<char>) -> bool {
    exists|k: int| 0 <= k && k + part.len() <= text.len() && #[trigger] text.subrange(k, k + part.len()) == part
}

/// Whether `part` occurs in `text` as a contiguous run.
pub fn contains_text(text: &str, part: &str) -> (r: bool)
    ensures
        r == is_infix(part@, text@),
{
    let n = text.unicode_len();
    let m = part.unicode_len();
    if m > n {
        return false;
    }
    let mut k: usize = 0;
    while k <= n - m
        invariant
            n == text@.len(),
            m == part@.len(),
            m <= n,
            k <= n - m,
            forall|j: int| 0 <= j < k && j + m <= n ==> #[trigger] text@.subrange(j, j + m) != part@,
        decreases n - m + 1 - k,
    {
        let mut j: usize = 0;
        let mut same = true;
        while j < m && same
            invariant
                n == text@.len(),
                m == part@.len(),
                k + m <= n,
                j <= m,
                same ==> forall|t: int| 0 <= t < j ==> text@[k + t] == part@[t],
                !same ==> text@.subrange(k as int, k + m) != part@,
            decreases m - j + (if same { 1int } else { 0int }),
        {
            if text.get_char(k + j) != part.get_char(j) {
                same = false;
                assert(text@.subrange(k as int, k + m)[j as int] != part@[j as int]);
            } else {
                j = j + 1;
            }
        }
        if same {
            assert(text@.subrange(k as int, k + m) =~= part@);
            return true;
        }
        if k == n - m {
            return false;
        }
        k = k + 1;
    }
    false
}

} // verus!
