use vstd::prelude::*;
use crate::document::{child_key, doc_view, Doc, Document};
use crate::error::ParserError;
use crate::keypath::{split_dots, split_key, strings_view};

verus! {

broadcast use vstd::std_specs::vec::group_vec_axioms;

/// The index of the first child at or after `i` named `seg`, or the number
/// of children when there is none.
pub open spec fn find_from(es: Seq<(Seq<char>, Doc)>, seg: Seq<char>, i: int) -> int
    decreases es.len() - i,
{
    if i < 0 || i >= es.len() {
        es.len() as int
    } else if es[i].0 == seg {
        i
    } else {
        find_from(es, seg, i + 1)
    }
}

/// The index of the first child named `seg`, or the number of children.
pub open spec fn entry_index(es: Seq<(Seq<char>, Doc)>, seg: Seq<char>) -> int {
    find_from(es, seg, 0)
}

/// The children with `seg` bound to `x`: the first child named `seg` is
/// replaced, or `x` is appended when there is none.
pub open spec fn put(es: Seq<(Seq<char>, Doc)>, seg: Seq<char>, x: Doc) -> Seq<(Seq<char>, Doc)> {
    let i = entry_index(es, seg);
    if i < es.len() {
        es.update(i, (seg, x))
    } else {
        es.push((seg, x))
    }
}

/// The outcome of reading a dotted key.
pub enum Lookup {
    /// The translation string found.
    Found(Seq<char>),
    /// This segment is absent.
    Missing(Seq<char>),
    /// This last segment names a group.
    NotLeaf(Seq<char>),
}

/// Reading the segments `p` from `d`: each segment selects the first child
/// of that name of the current group.
pub open spec fn lookup(d: Doc, p: Seq<Seq<char>>) -> Lookup
    decreases p.len(),
{
    if p.len() == 0 {
        Lookup::Missing(Seq::empty())
    } else {
        let seg = p[0];
        match d {
            Doc::Leaf(_) => Lookup::Missing(seg),
            Doc::Group(es) => {
                let i = entry_index(es, seg);
                if i >= es.len() || i < 0 {
                    Lookup::Missing(seg)
                } else if p.len() == 1 {
                    match es[i].1 {
                        Doc::Leaf(s) => Lookup::Found(s),
                        Doc::Group(_) => Lookup::NotLeaf(seg),
                    }
                } else {
                    lookup(es[i].1, p.drop_first())
                }
            },
        }
    }
}

/// Setting the segments `p` of the group `d`, which stands at dotted key
/// `key`, to the translation string `v`: missing groups on the way are
/// created, and whatever stood at the last segment is replaced. Fails with
/// the dotted key of the first segment on the way that holds a string.
pub open spec fn assign(d: Doc, p: Seq<Seq<char>>, v: Seq<char>, key: Seq<char>) -> Result<Doc, Seq<char>>
    decreases p.len(),
{
    match d {
        Doc::Leaf(_) => Err(key),
        Doc::Group(es) => if p.len() <= 1 {
            Ok(Doc::Group(put(es, p[0], Doc::Leaf(v))))
        } else {
            let seg = p[0];
            let i = entry_index(es, seg);
            let child = if 0 <= i < es.len() {
                es[i].1
            } else {
                Doc::Group(Seq::empty())
            };
            match assign(child, p.drop_first(), v, child_key(key, seg)) {
                Ok(c) => Ok(Doc::Group(put(es, seg, c))),
                Err(e) => Err(e),
            }
        },
    }
}

/// The position of the first child of `es` named `seg`, or `es.len()`.
fn find_entry(es: &Vec<(String, Document)>, seg: &String) -> (r: usize)
    ensures
        r as int == entry_index(doc_view(Document::Group(*es))->Group_0, seg@),
        r <= es@.len(),
{
    let ghost g = doc_view(Document::Group(*es))->Group_0;
    let mut i: usize = 0;
    while i < es.len()
        invariant
            i <= es.len(),
            g == doc_view(Document::Group(*es))->Group_0,
            g.len() == es@.len(),
            find_from(g, seg@, 0) == find_from(g, seg@, i as int),
        decreases es.len() - i,
    {
        assert(g[i as int] == (es@[i as int].0@, doc_view(es@[i as int].1)));
        if es[i].0 == *seg {
            return i;
        }
        i = i + 1;
    }
    i
}

proof fn lemma_update_view(es: Vec<(String, Document)>, es2: Vec<(String, Document)>, i: int, x: (String, Document))
    requires
        0 <= i < es@.len(),
        es2@ == es@.update(i, x),
    ensures
        doc_view(Document::Group(es2))->Group_0 == doc_view(Document::Group(es))->Group_0.update(
            i,
            (x.0@, doc_view(x.1)),
        ),
{
    assert(doc_view(Document::Group(es2))->Group_0 =~= doc_view(Document::Group(es))->Group_0.update(
        i,
        (x.0@, doc_view(x.1)),
    ));
}

proof fn lemma_push_view(es: Vec<(String, Document)>, es2: Vec<(String, Document)>, x: (String, Document))
    requires
        es2@ == es@.push(x),
    ensures
        doc_view(Document::Group(es2))->Group_0 == doc_view(Document::Group(es))->Group_0.push(
            (x.0@, doc_view(x.1)),
        ),
{
    assert(doc_view(Document::Group(es2))->Group_0 =~= doc_view(Document::Group(es))->Group_0.push(
        (x.0@, doc_view(x.1)),
    ));
}

/// Sets the segments `segs[i..]` of `d`, standing at dotted key `key`, to `v`.
fn assign_from(d: Document, segs: &Vec<String>, i: usize, v: String, key: String) -> (r: Result<Document, String>)
    requires
        i < segs@.len(),
    ensures
        match assign(d@, strings_view(segs@).subrange(i as int, segs@.len() as int), v@, key@) {
            Ok(m) => r is Ok && r->Ok_0@ == m,
            Err(e) => r is Err && r->Err_0@ == e,
        },
    decreases segs@.len() - i,
{
    let ghost p = strings_view(segs@).subrange(i as int, segs@.len() as int);
    assert(p[0] == segs@[i as int]@);
    match d {
        Document::Leaf(_) => Err(key),
        Document::Group(es) => {
            let mut es = es;
            let ghost g = doc_view(Document::Group(es))->Group_0;
            let idx = find_entry(&es, &segs[i]);
            if i == segs.len() - 1 {
                let ghost old_es = es;
                let entry = (segs[i].clone(), Document::Leaf(v));
                if idx < es.len() {
                    es.set(idx, entry);
                    proof {
                        lemma_update_view(old_es, es, idx as int, entry);
                    }
                } else {
                    es.push(entry);
                    proof {
                        lemma_push_view(old_es, es, entry);
                    }
                }
                Ok(Document::Group(es))
            } else {
                let sub_key = crate::document::make_child_key(&key, &segs[i]);
                let ghost old_es = es;
                let child = if idx < es.len() {
                    let mut taken = (String::new(), Document::Group(Vec::new()));
                    es.set_and_swap(idx, &mut taken);
                    assert(g[idx as int] == (old_es@[idx as int].0@, doc_view(old_es@[idx as int].1)));
                    taken.1
                } else {
                    let empty: Vec<(String, Document)> = Vec::new();
                    assert(doc_view(Document::Group(empty))->Group_0 =~= Seq::empty());
                    Document::Group(empty)
                };
                assert(p.drop_first() =~= strings_view(segs@).subrange(i + 1, segs@.len() as int));
                match assign_from(child, segs, i + 1, v, sub_key) {
                    Ok(c) => {
                        let entry = (segs[i].clone(), c);
                        if idx < es.len() {
                            es.set(idx, entry);
                            assert(es@ == old_es@.update(idx as int, entry));
                            proof {
                                lemma_update_view(old_es, es, idx as int, entry);
                            }
                        } else {
                            es.push(entry);
                            proof {
                                lemma_push_view(old_es, es, entry);
                            }
                        }
                        Ok(Document::Group(es))
                    },
                    Err(e) => Err(e),
                }
            }
        },
    }
}

/// Sets the dotted key `key` of `value` to the translation string
/// `updated_value`, creating the groups that are missing on the way and
/// replacing whatever stood at the key.
pub fn update_translation_key(value: Document, key: String, updated_value: String) -> (r: Result<Document, ParserError>)
    ensures
        value@ is Leaf ==> r == Err::<Document, ParserError>(ParserError::RootNotAGroup),
        value@ is Group ==> match assign(value@, split_dots(key@), updated_value@, Seq::empty()) {
            Ok(m) => r is Ok && r->Ok_0@ == m,
            Err(e) => r is Err && r->Err_0 is PathSegmentConflict && r->Err_0->path@ == e,
        },
        r is Ok && crate::resolve::names_distinct(value@) ==> crate::resolve::names_distinct(r->Ok_0@),
{
    proof {
        crate::keypath::lemma_split_dots_len(key@);
        if value@ is Group && assign(value@, split_dots(key@), updated_value@, Seq::empty()) is Ok
            && crate::resolve::names_distinct(value@) {
            crate::resolve::lemma_assign_keeps_names_distinct(value@, split_dots(key@), updated_value@, Seq::empty());
        }
    }
    if let Document::Leaf(_) = &value {
        return Err(ParserError::RootNotAGroup);
    }
    let segs = split_key(key.as_str());
    assert(strings_view(segs@).subrange(0, segs@.len() as int) =~= split_dots(key@));
    match assign_from(value, &segs, 0, updated_value, String::new()) {
        Ok(d) => Ok(d),
        Err(path) => Err(ParserError::PathSegmentConflict { path }),
    }
}

/// Reads the segments `segs[i..]` from `d`.
fn lookup_from(d: &Document, segs: &Vec<String>, i: usize) -> (r: Result<String, ParserError>)
    requires
        i < segs@.len(),
    ensures
        match lookup(d@, strings_view(segs@).subrange(i as int, segs@.len() as int)) {
            Lookup::Found(s) => r is Ok && r->Ok_0@ == s,
            Lookup::Missing(seg) => r is Err && r->Err_0 is KeyNotFound && r->Err_0->KeyNotFound_key@ == seg,
            Lookup::NotLeaf(seg) => r is Err && r->Err_0 is NotAString && r->Err_0->NotAString_key@ == seg,
        },
    decreases segs@.len() - i,
{
    let ghost p = strings_view(segs@).subrange(i as int, segs@.len() as int);
    assert(p[0] == segs@[i as int]@);
    match d {
        Document::Leaf(_) => Err(ParserError::KeyNotFound { key: segs[i].clone() }),
        Document::Group(es) => {
            let ghost g = doc_view(Document::Group(*es))->Group_0;
            let idx = find_entry(es, &segs[i]);
            if idx >= es.len() {
                return Err(ParserError::KeyNotFound { key: segs[i].clone() });
            }
            assert(g[idx as int] == (es@[idx as int].0@, doc_view(es@[idx as int].1)));
            if i == segs.len() - 1 {
                match &es[idx].1 {
                    Document::Leaf(s) => Ok(s.clone()),
                    Document::Group(_) => Err(ParserError::NotAString { key: segs[i].clone() }),
                }
            } else {
                assert(p.drop_first() =~= strings_view(segs@).subrange(i + 1, segs@.len() as int));
                lookup_from(&es[idx].1, segs, i + 1)
            }
        },
    }
}

/// The translation string at the dotted key `key` of `value`.
pub fn get_translation_value(value: &Document, key: String) -> (r: Result<String, ParserError>)
    ensures
        match lookup(value@, split_dots(key@)) {
            Lookup::Found(s) => r is Ok && r->Ok_0@ == s,
            Lookup::Missing(seg) => r is Err && r->Err_0 is KeyNotFound && r->Err_0->KeyNotFound_key@ == seg,
            Lookup::NotLeaf(seg) => r is Err && r->Err_0 is NotAString && r->Err_0->NotAString_key@ == seg,
        },
{
    let segs = split_key(key.as_str());
    assert(strings_view(segs@).subrange(0, segs@.len() as int) =~= split_dots(key@));
    lookup_from(value, &segs, 0)
}

/// Where the search for `seg` from `i` stops, and what it passes over.
pub proof fn lemma_find_from(es: Seq<(Seq<char>, Doc)>, seg: Seq<char>, i: int)
    requires
        0 <= i <= es.len(),
    ensures
        i <= find_from(es, seg, i) <= es.len(),
        find_from(es, seg, i) < es.len() ==> es[find_from(es, seg, i)].0 == seg,
        forall|j: int| i <= j < find_from(es, seg, i) ==> es[j].0 != seg,
    decreases es.len() - i,
{
    if i < es.len() && es[i].0 != seg {
        lemma_find_from(es, seg, i + 1);
    }
}

/// After `put`, the first child named `seg` is the one that was put.
pub proof fn lemma_entry_of_put(es: Seq<(Seq<char>, Doc)>, seg: Seq<char>, x: Doc)
    ensures
        0 <= entry_index(put(es, seg, x), seg) < put(es, seg, x).len(),
        put(es, seg, x)[entry_index(put(es, seg, x), seg)] == (seg, x),
{
    let e2 = put(es, seg, x);
    let i = entry_index(es, seg);
    lemma_find_from(es, seg, 0);
    lemma_find_from(e2, seg, 0);
    let r = entry_index(e2, seg);
    if i < es.len() {
        if r > i {
            assert(e2[i].0 == seg);
        }
        if r < i {
            assert(e2[r] == es[r]);
        }
        assert(r == i);
    } else {
        if r < es.len() {
            assert(e2[r] == es[r]);
        }
        assert(e2[es.len() as int].0 == seg);
        assert(r == es.len());
    }
}

/// Reading a key right after setting it to `v` yields `v`, whenever the
/// setting succeeds.
pub proof fn lemma_get_after_set(d: Doc, p: Seq<Seq<char>>, v: Seq<char>, key: Seq<char>)
    requires
        p.len() >= 1,
        assign(d, p, v, key) is Ok,
    ensures
        lookup(assign(d, p, v, key)->Ok_0, p) == Lookup::Found(v),
    decreases p.len(),
{
    let es = d->Group_0;
    let seg = p[0];
    if p.len() == 1 {
        lemma_entry_of_put(es, seg, Doc::Leaf(v));
    } else {
        let i = entry_index(es, seg);
        let child = if 0 <= i < es.len() {
            es[i].1
        } else {
            Doc::Group(Seq::empty())
        };
        let c = assign(child, p.drop_first(), v, child_key(key, seg))->Ok_0;
        lemma_entry_of_put(es, seg, c);
        lemma_get_after_set(child, p.drop_first(), v, child_key(key, seg));
    }
}

/// Setting the dotted key `key` of a document to `v` and reading it back
/// yields `v`, whenever the setting succeeds.
pub proof fn lemma_update_then_get(d: Doc, key: Seq<char>, v: Seq<char>)
    requires
        assign(d, split_dots(key), v, Seq::empty()) is Ok,
    ensures
        lookup(assign(d, split_dots(key), v, Seq::empty())->Ok_0, split_dots(key)) == Lookup::Found(v),
{
    crate::keypath::lemma_split_dots_len(key);
    lemma_get_after_set(d, split_dots(key), v, Seq::empty());
}

} // verus!
