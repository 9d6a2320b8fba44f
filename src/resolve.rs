use vstd::prelude::*;
use crate::access::{assign, entry_index, lemma_find_from, lookup, put, Lookup};
use crate::document::{child_key, key_at, node_at, root_yields, Doc, Pick};
use crate::keypath::{join_dots, lemma_join_split, split_by, split_dots};

verus! {

/// Whether the children `es` have distinct names, none of them empty or
/// holding a dot.
pub open spec fn names_ok(es: Seq<(Seq<char>, Doc)>) -> bool {
    &&& forall|i: int, j: int| 0 <= i < j < es.len() ==> #[trigger] es[i].0 != #[trigger] es[j].0
    &&& forall|i: int| 0 <= i < es.len() ==> (#[trigger] es[i].0).len() > 0 && !es[i].0.contains('.')
}

/// Whether the names of the children `es` are segments of dotted keys:
/// non-empty and without dots.
pub open spec fn plain_names(es: Seq<(Seq<char>, Doc)>) -> bool {
    forall|i: int| 0 <= i < es.len() ==> (#[trigger] es[i].0).len() > 0 && !es[i].0.contains('.')
}

/// Whether every group of `d` has children with distinct names, none of
/// them empty or holding a dot: the documents whose dotted keys name their
/// nodes without ambiguity.
pub open spec fn well_named(d: Doc) -> bool {
    &&& names_distinct(d)
    &&& forall|p: Seq<int>| #[trigger] node_at(d, p) is Some && node_at(d, p)->0 is Group ==> plain_names(
        node_at(d, p)->0->Group_0,
    )
}

/// The names of the children passed on the way that `p` takes from `d`.
pub open spec fn names_along(d: Doc, p: Seq<int>) -> Seq<Seq<char>>
    decreases p.len(),
{
    if p.len() == 0 {
        Seq::empty()
    } else {
        match d {
            Doc::Group(es) => if 0 <= p[0] < es.len() {
                seq![es[p[0]].0] + names_along(es[p[0]].1, p.drop_first())
            } else {
                Seq::empty()
            },
            _ => Seq::empty(),
        }
    }
}

proof fn lemma_well_named_child(es: Seq<(Seq<char>, Doc)>, i: int)
    requires
        well_named(Doc::Group(es)),
        0 <= i < es.len(),
    ensures
        well_named(es[i].1),
        names_ok(es),
{
    let d = Doc::Group(es);
    assert(node_at(d, Seq::empty()) is Some);
    lemma_names_distinct_group(es);
    assert(names_distinct(es[i].1));
    assert forall|q: Seq<int>| #[trigger] node_at(es[i].1, q) is Some && node_at(es[i].1, q)->0 is Group implies plain_names(
        node_at(es[i].1, q)->0->Group_0,
    ) by {
        let p = seq![i] + q;
        assert(p.drop_first() =~= q);
        assert(node_at(d, p) == node_at(es[i].1, q));
    }
}

proof fn lemma_first_is_unique(es: Seq<(Seq<char>, Doc)>, i: int)
    requires
        names_ok(es),
        0 <= i < es.len(),
    ensures
        entry_index(es, es[i].0) == i,
{
    lemma_find_from(es, es[i].0, 0);
    let r = entry_index(es, es[i].0);
    if r < i {
        assert(es[r].0 != es[i].0);
    }
}

/// The key reached by adding the names `ns` one after the other below `base`.
pub open spec fn extend(base: Seq<char>, ns: Seq<Seq<char>>) -> Seq<char>
    decreases ns.len(),
{
    if ns.len() == 0 {
        base
    } else {
        extend(child_key(base, ns[0]), ns.drop_first())
    }
}

proof fn lemma_key_along(d: Doc, base: Seq<char>, p: Seq<int>)
    requires
        node_at(d, p) is Some,
    ensures
        key_at(d, base, p) == extend(base, names_along(d, p)),
    decreases p.len(),
{
    if p.len() > 0 {
        let es = d->Group_0;
        let i = p[0];
        lemma_key_along(es[i].1, child_key(base, es[i].0), p.drop_first());
        let ns = names_along(d, p);
        assert(ns.drop_first() =~= names_along(es[i].1, p.drop_first()));
    }
}

proof fn lemma_join_front(a: Seq<char>, rest: Seq<Seq<char>>)
    requires
        rest.len() > 0,
    ensures
        join_dots(seq![a] + rest) == a + seq!['.'] + join_dots(rest),
    decreases rest.len(),
{
    let all = seq![a] + rest;
    assert(all.last() == rest.last());
    assert(all.len() >= 2);
    if rest.len() == 1 {
        assert(all.drop_last() =~= seq![a]);
        assert(join_dots(seq![a]) == a);
        assert(rest.last() == rest[0]);
        assert(join_dots(rest) == rest[0]);
    } else {
        lemma_join_front(a, rest.drop_last());
        assert(all.drop_last() =~= seq![a] + rest.drop_last());
        assert(a + seq!['.'] + join_dots(rest) =~= a + seq!['.'] + join_dots(rest.drop_last()) + seq!['.']
            + rest.last());
    }
}

proof fn lemma_extend_join(base: Seq<char>, ns: Seq<Seq<char>>)
    requires
        forall|i: int| 0 <= i < ns.len() ==> (#[trigger] ns[i]).len() > 0,
        base.len() > 0,
    ensures
        ns.len() > 0 ==> extend(base, ns) == base + seq!['.'] + join_dots(ns),
        ns.len() == 0 ==> extend(base, ns) == base,
    decreases ns.len(),
{
    if ns.len() > 0 {
        let rest = ns.drop_first();
        lemma_extend_join(child_key(base, ns[0]), rest);
        assert(ns =~= seq![ns[0]] + rest);
        if rest.len() > 0 {
            lemma_join_front(ns[0], rest);
            assert(child_key(base, ns[0]) + seq!['.'] + join_dots(rest) =~= base + seq!['.'] + (ns[0]
                + seq!['.'] + join_dots(rest)));
        }
    }
}

proof fn lemma_extend_root(ns: Seq<Seq<char>>)
    requires
        forall|i: int| 0 <= i < ns.len() ==> (#[trigger] ns[i]).len() > 0,
        ns.len() > 0,
    ensures
        extend(Seq::empty(), ns) == join_dots(ns),
{
    let rest = ns.drop_first();
    assert(ns =~= seq![ns[0]] + rest);
    lemma_extend_join(ns[0], rest);
    if rest.len() > 0 {
        lemma_join_front(ns[0], rest);
    }
}

proof fn lemma_split_after_dot(x: Seq<char>, l: Seq<char>)
    requires
        !l.contains('.'),
    ensures
        split_by(x + seq!['.'] + l, '.') == split_by(x, '.').push(l),
    decreases l.len(),
{
    let s = x + seq!['.'] + l;
    if l.len() == 0 {
        assert(s =~= x.push('.'));
        assert(s.drop_last() =~= x);
        assert(s.last() == '.');
        assert(l =~= Seq::<char>::empty());
    } else {
        let l2 = l.drop_last();
        assert(l[l.len() - 1] != '.');
        assert(s.last() == l.last());
        assert(!l2.contains('.')) by {
            if l2.contains('.') {
                let j = choose|j: int| 0 <= j < l2.len() && l2[j] == '.';
                assert(l[j] == '.');
            }
        }
        lemma_split_after_dot(x, l2);
        assert(s.drop_last() =~= x + seq!['.'] + l2);
        assert(l2.push(l.last()) =~= l);
        assert(split_by(x, '.').push(l2).update(split_by(x, '.').len() as int, l2.push(l.last())) =~= split_by(
            x,
            '.',
        ).push(l));
    }
}

proof fn lemma_split_plain(l: Seq<char>)
    requires
        !l.contains('.'),
    ensures
        split_by(l, '.') == seq![l],
    decreases l.len(),
{
    if l.len() > 0 {
        let l2 = l.drop_last();
        assert(l[l.len() - 1] != '.');
        assert(!l2.contains('.')) by {
            if l2.contains('.') {
                let j = choose|j: int| 0 <= j < l2.len() && l2[j] == '.';
                assert(l[j] == '.');
            }
        }
        lemma_split_plain(l2);
        assert(l.last() != '.');
        assert(split_by(l, '.') == split_by(l2, '.').update(0, l2.push(l.last())));
        assert(l2.push(l.last()) =~= l);
        assert(seq![l2].update(0, l2.push(l.last())) =~= seq![l]);
    } else {
        assert(l =~= Seq::<char>::empty());
    }
}

/// Splitting the dotted join of dot-free segments gives the segments back.
pub proof fn lemma_split_join(ns: Seq<Seq<char>>)
    requires
        ns.len() > 0,
        forall|i: int| 0 <= i < ns.len() ==> !(#[trigger] ns[i]).contains('.'),
    ensures
        split_dots(join_dots(ns)) == ns,
    decreases ns.len(),
{
    if ns.len() == 1 {
        lemma_split_plain(ns[0]);
        assert(seq![ns[0]] =~= ns);
    } else {
        let front = ns.drop_last();
        lemma_split_join(front);
        lemma_split_after_dot(join_dots(front), ns.last());
        assert(front.push(ns.last()) =~= ns);
    }
}

proof fn lemma_names_ok_along(d: Doc, p: Seq<int>)
    requires
        well_named(d),
        node_at(d, p) is Some,
    ensures
        names_along(d, p).len() == p.len(),
        forall|i: int| 0 <= i < names_along(d, p).len() ==> (#[trigger] names_along(d, p)[i]).len() > 0
            && !names_along(d, p)[i].contains('.'),
    decreases p.len(),
{
    if p.len() > 0 {
        let es = d->Group_0;
        let i = p[0];
        lemma_well_named_child(es, i);
        lemma_names_ok_along(es[i].1, p.drop_first());
        let ns = names_along(d, p);
        assert forall|j: int| 0 <= j < ns.len() implies (#[trigger] ns[j]).len() > 0 && !ns[j].contains('.') by {
            if j > 0 {
                assert(ns[j] == names_along(es[i].1, p.drop_first())[j - 1]);
            }
        }
    }
}

proof fn lemma_lookup_along(d: Doc, p: Seq<int>)
    requires
        well_named(d),
        p.len() > 0,
        node_at(d, p) is Some,
        node_at(d, p)->0 is Leaf,
    ensures
        lookup(d, names_along(d, p)) == Lookup::Found(node_at(d, p)->0->Leaf_0),
    decreases p.len(),
{
    let es = d->Group_0;
    let i = p[0];
    let ns = names_along(d, p);
    lemma_well_named_child(es, i);
    lemma_first_is_unique(es, i);
    if p.len() == 1 {
        assert(p.drop_first().len() == 0);
        assert(ns =~= seq![es[i].0]);
    } else {
        lemma_lookup_along(es[i].1, p.drop_first());
        assert(ns.drop_first() =~= names_along(es[i].1, p.drop_first()));
        lemma_names_ok_along(d, p);
    }
}

proof fn lemma_found_path(d: Doc, ns: Seq<Seq<char>>)
    requires
        ns.len() > 0,
        lookup(d, ns) is Found,
    ensures
        exists|p: Seq<int>|
            p.len() > 0 && #[trigger] node_at(d, p) is Some && node_at(d, p)->0 is Leaf && names_along(d, p)
                == ns,
    decreases ns.len(),
{
    let es = d->Group_0;
    let i = entry_index(es, ns[0]);
    lemma_find_from(es, ns[0], 0);
    assert(d is Group);
    assert(0 <= i < es.len());
    assert(es[i].0 == ns[0]);
    if ns.len() == 1 {
        let p = seq![i];
        assert(p.len() == 1 && p[0] == i);
        assert(p.drop_first() =~= Seq::<int>::empty());
        assert(node_at(es[i].1, Seq::<int>::empty()) == Some(es[i].1));
        assert(names_along(es[i].1, Seq::<int>::empty()) =~= Seq::<Seq<char>>::empty());
        assert(names_along(d, p) =~= ns);
        assert(node_at(d, p) is Some);
    } else {
        lemma_found_path(es[i].1, ns.drop_first());
        let q = choose|q: Seq<int>|
            q.len() > 0 && #[trigger] node_at(es[i].1, q) is Some && node_at(es[i].1, q)->0 is Leaf
                && names_along(es[i].1, q) == ns.drop_first();
        let p = seq![i] + q;
        assert(p.drop_first() =~= q);
        assert(names_along(d, p) =~= ns);
        assert(node_at(d, p) is Some);
    }
}

/// In a document whose names are distinct within each group, non-empty and
/// free of dots, a dotted key is the key of a translation string exactly
/// when reading it finds a translation string.
pub proof fn lemma_leaf_key_resolves(d: Doc, k: Seq<char>)
    requires
        well_named(d),
    ensures
        root_yields(d, Seq::empty(), k, Pick::Strings) <==> lookup(d, split_dots(k)) is Found,
{
    if root_yields(d, Seq::empty(), k, Pick::Strings) {
        let p = choose|p: Seq<int>|
            p.len() > 0 && #[trigger] node_at(d, p) is Some && crate::document::selected(node_at(d, p)->0, Pick::Strings)
                && key_at(d, Seq::empty(), p) == k;
        lemma_key_along(d, Seq::empty(), p);
        lemma_names_ok_along(d, p);
        let ns = names_along(d, p);
        lemma_extend_root(ns);
        lemma_split_join(ns);
        lemma_lookup_along(d, p);
    }
    if lookup(d, split_dots(k)) is Found {
        crate::keypath::lemma_split_dots_len(k);
        lemma_found_path(d, split_dots(k));
        let p = choose|p: Seq<int>|
            p.len() > 0 && #[trigger] node_at(d, p) is Some && node_at(d, p)->0 is Leaf && names_along(d, p)
                == split_dots(k);
        lemma_key_along(d, Seq::empty(), p);
        lemma_names_ok_along(d, p);
        lemma_extend_root(split_dots(k));
        lemma_join_split(k);
        assert(crate::document::selected(node_at(d, p)->0, Pick::Strings));
    }
}

/// For a candidate document whose names are distinct within each group,
/// non-empty and free of dots, no reference key is missing exactly when
/// every reference key reads back as a translation string.
pub proof fn lemma_nothing_missing_iff_all_resolve(reference_keys: Seq<String>, candidate: Doc)
    requires
        well_named(candidate),
    ensures
        (forall|j: int|
            0 <= j < reference_keys.len() ==> root_yields(
                candidate,
                Seq::empty(),
                #[trigger] reference_keys[j]@,
                Pick::Strings,
            )) <==> (forall|j: int|
            0 <= j < reference_keys.len() ==> lookup(candidate, split_dots(#[trigger] reference_keys[j]@)) is Found),
{
    assert forall|j: int| 0 <= j < reference_keys.len() implies root_yields(
        candidate,
        Seq::empty(),
        #[trigger] reference_keys[j]@,
        Pick::Strings,
    ) == (lookup(candidate, split_dots(reference_keys[j]@)) is Found) by {
        lemma_leaf_key_resolves(candidate, reference_keys[j]@);
    }
}

/// Whether the children `es` have pairwise distinct names.
pub open spec fn distinct_names(es: Seq<(Seq<char>, Doc)>) -> bool {
    forall|i: int, j: int| 0 <= i < j < es.len() ==> #[trigger] es[i].0 != #[trigger] es[j].0
}

/// Whether every group of `d` has children with pairwise distinct names, as
/// the members of a JSON object have.
pub open spec fn names_distinct(d: Doc) -> bool {
    forall|p: Seq<int>| #[trigger] node_at(d, p) is Some && node_at(d, p)->0 is Group ==> distinct_names(
        node_at(d, p)->0->Group_0,
    )
}

/// A group has distinct names throughout exactly when its own children do
/// and each child has them throughout.
pub proof fn lemma_names_distinct_group(es: Seq<(Seq<char>, Doc)>)
    ensures
        names_distinct(Doc::Group(es)) <==> (distinct_names(es) && forall|i: int|
            0 <= i < es.len() ==> #[trigger] names_distinct(es[i].1)),
{
    let d = Doc::Group(es);
    if names_distinct(d) {
        assert(node_at(d, Seq::empty()) is Some);
        assert forall|i: int| 0 <= i < es.len() implies #[trigger] names_distinct(es[i].1) by {
            assert forall|q: Seq<int>| #[trigger] node_at(es[i].1, q) is Some && node_at(es[i].1, q)->0 is Group implies distinct_names(
                node_at(es[i].1, q)->0->Group_0,
            ) by {
                let p = seq![i] + q;
                assert(p.drop_first() =~= q);
                assert(node_at(d, p) == node_at(es[i].1, q));
            }
        }
    }
    if distinct_names(es) && forall|i: int| 0 <= i < es.len() ==> #[trigger] names_distinct(es[i].1) {
        assert forall|p: Seq<int>| #[trigger] node_at(d, p) is Some && node_at(d, p)->0 is Group implies distinct_names(
            node_at(d, p)->0->Group_0,
        ) by {
            if p.len() > 0 {
                let i = p[0];
                assert(names_distinct(es[i].1));
                assert(node_at(es[i].1, p.drop_first()) is Some);
            }
        }
    }
}

proof fn lemma_put_distinct(es: Seq<(Seq<char>, Doc)>, seg: Seq<char>, x: Doc)
    requires
        distinct_names(es),
    ensures
        distinct_names(put(es, seg, x)),
        forall|i: int| 0 <= i < es.len() && i != entry_index(es, seg) ==> put(es, seg, x)[i] == es[i],
        0 <= entry_index(put(es, seg, x), seg) < put(es, seg, x).len(),
        put(es, seg, x)[entry_index(put(es, seg, x), seg)] == (seg, x),
        entry_index(put(es, seg, x), seg) == entry_index(es, seg) || entry_index(put(es, seg, x), seg) == es.len(),
{
    let e2 = put(es, seg, x);
    let r = entry_index(es, seg);
    lemma_find_from(es, seg, 0);
    crate::access::lemma_entry_of_put(es, seg, x);
    lemma_find_from(e2, seg, 0);
    assert forall|i: int, j: int| 0 <= i < j < e2.len() implies #[trigger] e2[i].0 != #[trigger] e2[j].0 by {
        if r < es.len() {
            if i != r && j != r {
                assert(e2[i] == es[i] && e2[j] == es[j]);
            } else if i == r {
                assert(e2[j] == es[j]);
            } else {
                assert(e2[i] == es[i]);
            }
        } else {
            if j == es.len() {
                assert(e2[i] == es[i]);
            } else {
                assert(e2[i] == es[i] && e2[j] == es[j]);
            }
        }
    }
}

/// Setting a key keeps the names of every group pairwise distinct.
pub proof fn lemma_assign_keeps_names_distinct(d: Doc, p: Seq<Seq<char>>, v: Seq<char>, key: Seq<char>)
    requires
        names_distinct(d),
        p.len() >= 1,
        assign(d, p, v, key) is Ok,
    ensures
        names_distinct(assign(d, p, v, key)->Ok_0),
    decreases p.len(),
{
    let es = d->Group_0;
    let seg = p[0];
    lemma_names_distinct_group(es);
    let i = entry_index(es, seg);
    lemma_find_from(es, seg, 0);
    let c = if p.len() <= 1 {
        Doc::Leaf(v)
    } else {
        let child = if 0 <= i < es.len() {
            es[i].1
        } else {
            Doc::Group(Seq::empty())
        };
        if !(0 <= i < es.len()) {
            lemma_names_distinct_group(Seq::empty());
        }
        lemma_assign_keeps_names_distinct(child, p.drop_first(), v, child_key(key, seg));
        assign(child, p.drop_first(), v, child_key(key, seg))->Ok_0
    };
    let e2 = put(es, seg, c);
    assert(assign(d, p, v, key)->Ok_0 == Doc::Group(e2));
    lemma_put_distinct(es, seg, c);
    assert forall|q: Seq<int>| #[trigger] node_at(Doc::Leaf(v), q) is Some && node_at(Doc::Leaf(v), q)->0 is Group implies distinct_names(
        node_at(Doc::Leaf(v), q)->0->Group_0,
    ) by {
    }
    assert forall|j: int| 0 <= j < e2.len() implies #[trigger] names_distinct(e2[j].1) by {
        if j < es.len() && j != i {
            assert(e2[j] == es[j]);
        } else {
            assert(e2[j].1 == c);
        }
    }
    lemma_names_distinct_group(e2);
}

} // verus!
