use vstd::prelude::*;
use vstd::string::StringExecFns;

verus! {

broadcast use vstd::std_specs::vec::group_vec_axioms;

/// Mathematical model of a translation document.
pub enum Doc {
    Leaf(Seq<char>),
    Group(Seq<(Seq<char>, Doc)>),
}

/// A parsed translation file: either a translation string or a group of
/// named children.
#[derive(Debug, PartialEq, Eq)]
pub enum Document {
    Leaf(String),
    Group(Vec<(String, Document)>),
}

/// Which dotted keys an enumeration yields.
#[derive(Clone, Copy, Debug, PartialEq, Eq)]
pub enum ObjectKeyOption {
    /// The keys of translation strings.
    ExcludeObjectKeys,
    /// The keys of groups that hold no further group.
    OnlyObjectKeys,
}

/// The model of the document `d`.
pub open spec fn doc_view(d: Document) -> Doc
    decreases d,
{
    match d {
        Document::Leaf(s) => Doc::Leaf(s@),
        Document::Group(es) => Doc::Group(
            Seq::new(
                es@.len(),
                |i: int|
                    if 0 <= i < es@.len() {
                        (es@[i].0@, doc_view(es@[i].1))
                    } else {
                        (Seq::empty(), Doc::Leaf(Seq::empty()))
                    },
            ),
        ),
    }
}

impl View for Document {
    type V = Doc;

    open spec fn view(&self) -> Doc {
        doc_view(*self)
    }
}

/// The dotted key of the child `seg` of the node at `base`; children of the
/// root (empty `base`) are keyed by their name alone.
pub open spec fn child_key(base: Seq<char>, seg: Seq<char>) -> Seq<char> {
    if base.len() == 0 {
        seg
    } else {
        base + seq!['.'] + seg
    }
}

pub open spec fn has_group_child(es: Seq<(Seq<char>, Doc)>) -> bool {
    exists|i: int| 0 <= i < es.len() && es[i].1 is Group
}

/// The node reached from `d` by descending into the children at the entry
/// indices `p`, if there is one.
pub open spec fn node_at(d: Doc, p: Seq<int>) -> Option<Doc>
    decreases p.len(),
{
    if p.len() == 0 {
        Some(d)
    } else {
        match d {
            Doc::Leaf(_) => None,
            Doc::Group(es) => if 0 <= p[0] < es.len() {
                node_at(es[p[0]].1, p.drop_first())
            } else {
                None
            },
        }
    }
}

/// The dotted key of the node that `p` reaches from `d`, when `d` stands at
/// the dotted key `key`.
pub open spec fn key_at(d: Doc, key: Seq<char>, p: Seq<int>) -> Seq<char>
    decreases p.len(),
{
    if p.len() == 0 {
        key
    } else {
        match d {
            Doc::Leaf(_) => key,
            Doc::Group(es) => if 0 <= p[0] < es.len() {
                key_at(es[p[0]].1, child_key(key, es[p[0]].0), p.drop_first())
            } else {
                key
            },
        }
    }
}

/// The kinds of node that a walk over a document collects the keys of.
#[derive(Clone, Copy, Debug, PartialEq, Eq)]
pub enum Pick {
    /// Translation strings.
    Strings,
    /// Groups without any child group.
    TerminalGroups,
    /// Empty translation strings.
    EmptyStrings,
}

pub open spec fn pick_of(option: ObjectKeyOption) -> Pick {
    match option {
        ObjectKeyOption::ExcludeObjectKeys => Pick::Strings,
        ObjectKeyOption::OnlyObjectKeys => Pick::TerminalGroups,
    }
}

/// Whether the node `n` is of the kind `option`.
pub open spec fn selected(n: Doc, option: Pick) -> bool {
    match n {
        Doc::Leaf(s) => option is Strings || (option is EmptyStrings && s.len() == 0),
        Doc::Group(es) => option is TerminalGroups && !has_group_child(es),
    }
}

/// Whether `k` is the dotted key of a node of `d` (`d` itself included)
/// that `option` selects, when `d` stands at the dotted key `key`.
pub open spec fn yields(d: Doc, key: Seq<char>, k: Seq<char>, option: Pick) -> bool {
    exists|p: Seq<int>|
        #[trigger] node_at(d, p) is Some && selected(node_at(d, p)->0, option) && key_at(d, key, p) == k
}

/// Whether `k` is the dotted key of a node of `d` below its root that
/// `option` selects, keys starting from the prefix `base`.
pub open spec fn root_yields(d: Doc, base: Seq<char>, k: Seq<char>, option: Pick) -> bool {
    exists|p: Seq<int>|
        p.len() > 0 && #[trigger] node_at(d, p) is Some && selected(node_at(d, p)->0, option)
            && key_at(d, base, p) == k
}

/// The keys listed with `ExcludeObjectKeys` are exactly the dotted keys of
/// the translation strings below the root, and never those of groups; the
/// keys listed with `OnlyObjectKeys` are exactly those of the groups below
/// the root that hold no further group.
pub proof fn lemma_listed_keys(d: Doc, base: Seq<char>, k: Seq<char>)
    ensures
        root_yields(d, base, k, pick_of(ObjectKeyOption::ExcludeObjectKeys)) <==> exists|p: Seq<int>|
            p.len() > 0 && #[trigger] node_at(d, p) is Some && node_at(d, p)->0 is Leaf && key_at(d, base, p)
                == k,
        root_yields(d, base, k, pick_of(ObjectKeyOption::OnlyObjectKeys)) <==> exists|p: Seq<int>|
            p.len() > 0 && #[trigger] node_at(d, p) is Some && node_at(d, p)->0 is Group && !has_group_child(
                node_at(d, p)->0->Group_0,
            ) && key_at(d, base, p) == k,
{
    let strings = pick_of(ObjectKeyOption::ExcludeObjectKeys);
    let groups = pick_of(ObjectKeyOption::OnlyObjectKeys);
    if root_yields(d, base, k, strings) {
        let p = choose|p: Seq<int>|
            p.len() > 0 && #[trigger] node_at(d, p) is Some && selected(node_at(d, p)->0, strings)
                && key_at(d, base, p) == k;
        assert(node_at(d, p)->0 is Leaf);
    }
    if exists|p: Seq<int>|
        p.len() > 0 && #[trigger] node_at(d, p) is Some && node_at(d, p)->0 is Leaf && key_at(d, base, p) == k {
        let p = choose|p: Seq<int>|
            p.len() > 0 && #[trigger] node_at(d, p) is Some && node_at(d, p)->0 is Leaf && key_at(d, base, p)
                == k;
        assert(selected(node_at(d, p)->0, strings));
    }
    if root_yields(d, base, k, groups) {
        let p = choose|p: Seq<int>|
            p.len() > 0 && #[trigger] node_at(d, p) is Some && selected(node_at(d, p)->0, groups)
                && key_at(d, base, p) == k;
        assert(node_at(d, p)->0 is Group);
    }
    if exists|p: Seq<int>|
        p.len() > 0 && #[trigger] node_at(d, p) is Some && node_at(d, p)->0 is Group && !has_group_child(
            node_at(d, p)->0->Group_0,
        ) && key_at(d, base, p) == k {
        let p = choose|p: Seq<int>|
            p.len() > 0 && #[trigger] node_at(d, p) is Some && node_at(d, p)->0 is Group && !has_group_child(
                node_at(d, p)->0->Group_0,
            ) && key_at(d, base, p) == k;
        assert(selected(node_at(d, p)->0, groups));
    }
}

proof fn lemma_yields_leaf(s: Seq<char>, key: Seq<char>, k: Seq<char>, option: Pick)
    ensures
        yields(Doc::Leaf(s), key, k, option) <==> (selected(Doc::Leaf(s), option) && k == key),
{
    if selected(Doc::Leaf(s), option) && k == key {
        assert(node_at(Doc::Leaf(s), Seq::empty()) is Some);
    }
}

/// The keys below a group are those of its children, each from the child's
/// own dotted key.
proof fn lemma_yields_group(es: Seq<(Seq<char>, Doc)>, key: Seq<char>, k: Seq<char>, option: Pick)
    ensures
        root_yields(Doc::Group(es), key, k, option) <==> exists|i: int|
            0 <= i < es.len() && #[trigger] yields(es[i].1, child_key(key, es[i].0), k, option),
        yields(Doc::Group(es), key, k, option) <==> (root_yields(Doc::Group(es), key, k, option)
            || (selected(Doc::Group(es), option) && k == key)),
{
    let d = Doc::Group(es);
    if root_yields(d, key, k, option) {
        let p = choose|p: Seq<int>|
            p.len() > 0 && #[trigger] node_at(d, p) is Some && selected(node_at(d, p)->0, option)
                && key_at(d, key, p) == k;
        let i = p[0];
        let q = p.drop_first();
        assert(node_at(es[i].1, q) is Some);
        assert(yields(es[i].1, child_key(key, es[i].0), k, option));
    }
    if exists|i: int| 0 <= i < es.len() && #[trigger] yields(es[i].1, child_key(key, es[i].0), k, option) {
        let i = choose|i: int| 0 <= i < es.len() && #[trigger] yields(es[i].1, child_key(key, es[i].0), k, option);
        let q = choose|q: Seq<int>|
            #[trigger] node_at(es[i].1, q) is Some && selected(node_at(es[i].1, q)->0, option)
                && key_at(es[i].1, child_key(key, es[i].0), q) == k;
        let p = seq![i] + q;
        assert(p.drop_first() =~= q);
        assert(node_at(d, p) == node_at(es[i].1, q));
        assert(key_at(d, key, p) == key_at(es[i].1, child_key(key, es[i].0), q));
    }
    if yields(d, key, k, option) {
        let p = choose|p: Seq<int>|
            #[trigger] node_at(d, p) is Some && selected(node_at(d, p)->0, option) && key_at(d, key, p) == k;
        if p.len() > 0 {
            assert(root_yields(d, key, k, option));
        }
    }
    if selected(Doc::Group(es), option) && k == key {
        assert(node_at(d, Seq::empty()) is Some);
    }
    if root_yields(d, key, k, option) {
        let p = choose|p: Seq<int>|
            p.len() > 0 && #[trigger] node_at(d, p) is Some && selected(node_at(d, p)->0, option)
                && key_at(d, key, p) == k;
        assert(node_at(d, p) is Some);
    }
}

pub open spec fn holds_key(v: Seq<String>, k: Seq<char>) -> bool {
    exists|j: int| 0 <= j < v.len() && #[trigger] v[j]@ == k
}

/// The dotted key of the child `seg` of the node at `base`.
pub fn make_child_key(base: &String, seg: &String) -> (r: String)
    ensures
        r@ == child_key(base@, seg@),
{
    if base.as_str().is_empty() {
        seg.clone()
    } else {
        let dot = ".";
        proof {
            reveal_strlit(".");
        }
        let r = base.clone().concat(dot).concat(seg.as_str());
        r
    }
}


/// Whether one of the children `es` yields `k` from the group at `key`.
pub open spec fn entries_yield(es: Seq<(String, Document)>, key: Seq<char>, k: Seq<char>, option: Pick) -> bool {
    exists|i: int| 0 <= i < es.len() && #[trigger] yields(doc_view(es[i].1), child_key(key, es[i].0@), k, option)
}

proof fn lemma_group_view_entries(es: Vec<(String, Document)>, key: Seq<char>, k: Seq<char>, option: Pick)
    ensures
        doc_view(Document::Group(es))->Group_0.len() == es@.len(),
        yields(doc_view(Document::Group(es)), key, k, option) <==> (entries_yield(es@, key, k, option)
            || (selected(doc_view(Document::Group(es)), option) && k == key)),
        root_yields(doc_view(Document::Group(es)), key, k, option) <==> entries_yield(es@, key, k, option),
{
    let g = doc_view(Document::Group(es))->Group_0;
    assert(doc_view(Document::Group(es)) == Doc::Group(g));
    lemma_yields_group(g, key, k, option);
    if exists|i: int| 0 <= i < g.len() && #[trigger] yields(g[i].1, child_key(key, g[i].0), k, option) {
        let i = choose|i: int| 0 <= i < g.len() && #[trigger] yields(g[i].1, child_key(key, g[i].0), k, option);
        assert(g[i] == (es@[i].0@, doc_view(es@[i].1)));
        assert(yields(doc_view(es@[i].1), child_key(key, es@[i].0@), k, option));
    }
    if entries_yield(es@, key, k, option) {
        let i = choose|i: int| 0 <= i < es@.len() && #[trigger] yields(doc_view(es@[i].1), child_key(key, es@[i].0@), k, option);
        assert(g[i] == (es@[i].0@, doc_view(es@[i].1)));
        assert(yields(g[i].1, child_key(key, g[i].0), k, option));
    }
}

/// Whether one of the children `es` is a group.
fn has_group_entry(es: &Vec<(String, Document)>) -> (r: bool)
    ensures
        r == has_group_child(doc_view(Document::Group(*es))->Group_0),
{
    let ghost g = doc_view(Document::Group(*es))->Group_0;
    let mut i: usize = 0;
    while i < es.len()
        invariant
            i <= es.len(),
            g == doc_view(Document::Group(*es))->Group_0,
            forall|j: int| 0 <= j < i ==> !((#[trigger] g[j]).1 is Group),
        decreases es.len() - i,
    {
        assert(g[i as int] == (es@[i as int].0@, doc_view(es@[i as int].1)));
        match &es[i].1 {
            Document::Group(_) => {
                assert(g[i as int].1 is Group);
                return true;
            },
            Document::Leaf(_) => {},
        }
        i = i + 1;
    }
    false
}

/// Whether no two entries of `v` are equal strings.
pub open spec fn distinct_keys(v: Seq<String>) -> bool {
    forall|i: int, j: int| 0 <= i < j < v.len() ==> v[i]@ != v[j]@
}

/// Whether `keys` holds `k`.
pub fn contains_key(keys: &Vec<String>, k: &String) -> (r: bool)
    ensures
        r == holds_key(keys@, k@),
{
    let mut i: usize = 0;
    while i < keys.len()
        invariant
            i <= keys.len(),
            forall|j: int| 0 <= j < i ==> keys@[j]@ != k@,
        decreases keys.len() - i,
    {
        if keys[i] == *k {
            return true;
        }
        i = i + 1;
    }
    false
}

/// Adds `key` to the end of `out` unless `out` already holds it.
fn add_key(out: &mut Vec<String>, key: &String)
    ensures
        forall|k: Seq<char>| holds_key(final(out)@, k) <==> (holds_key(old(out)@, k) || k == key@),
        distinct_keys(old(out)@) ==> distinct_keys(final(out)@),
{
    if !contains_key(out, key) {
        let ghost before = out@;
        out.push(key.clone());
        assert forall|k: Seq<char>| holds_key(out@, k) <==> (holds_key(before, k) || k == key@) by {
            if holds_key(out@, k) && !holds_key(before, k) {
                let j = choose|j: int| 0 <= j < out@.len() && #[trigger] out@[j]@ == k;
                assert(j == before.len());
            }
            if holds_key(before, k) {
                let j = choose|j: int| 0 <= j < before.len() && #[trigger] before[j]@ == k;
                assert(out@[j] == before[j]);
            }
            if k == key@ {
                assert(out@[before.len() as int]@ == k);
            }
        }
        assert forall|i: int, j: int| distinct_keys(before) && 0 <= i < j < out@.len() implies out@[i]@ != out@[j]@ by {
            if j == before.len() {
                assert(out@[i] == before[i]);
            } else {
                assert(out@[i] == before[i]);
                assert(out@[j] == before[j]);
            }
        }
    }
}

/// Appends to `out` the keys that the subtree `d`, at dotted key `key`,
/// yields under `option` and that `out` does not hold yet.
fn collect_keys(d: &Document, key: &String, option: Pick, out: &mut Vec<String>)
    ensures
        forall|k: Seq<char>|
            holds_key(final(out)@, k) <==> (holds_key(old(out)@, k) || yields(d@, key@, k, option)),
        distinct_keys(old(out)@) ==> distinct_keys(final(out)@),
    decreases d@,
{
    match d {
        Document::Leaf(s) => {
            let picked = match option {
                Pick::Strings => true,
                Pick::TerminalGroups => false,
                Pick::EmptyStrings => s.as_str().is_empty(),
            };
            if picked {
                add_key(out, key);
            }
            assert forall|k: Seq<char>|
                holds_key(out@, k) <==> (holds_key(old(out)@, k) || yields(d@, key@, k, option)) by {
                lemma_yields_leaf(d@->Leaf_0, key@, k, option);
            }
        },
        Document::Group(es) => {
            collect_children(es, key, option, out);
            proof {
                assert forall|k: Seq<char>| #[trigger] yields(d@, key@, k, option) <==> (entries_yield(es@, key@, k, option) || (selected(d@, option) && k == key@)) by {
                    assert(*d == Document::Group(*es));
                    lemma_group_view_entries(*es, key@, k, option);
                }
            }
            if matches!(option, Pick::TerminalGroups) && !has_group_entry(es) {
                add_key(out, key);
            }
        },
    }
}

/// Appends to `out` the keys that the children `es` of the group at dotted
/// key `key` yield under `option`.
fn collect_children(
    es: &Vec<(String, Document)>,
    key: &String,
    option: Pick,
    out: &mut Vec<String>,
)
    ensures
        forall|k: Seq<char>|
            holds_key(final(out)@, k) <==> (holds_key(old(out)@, k) || entries_yield(es@, key@, k, option)),
        distinct_keys(old(out)@) ==> distinct_keys(final(out)@),
    decreases doc_view(Document::Group(*es)), 0int,
{
    let ghost g = doc_view(Document::Group(*es))->Group_0;
    let mut i: usize = 0;
    while i < es.len()
        invariant
            i <= es.len(),
            g == doc_view(Document::Group(*es))->Group_0,
            distinct_keys(old(out)@) ==> distinct_keys(out@),
            forall|k: Seq<char>|
                holds_key(out@, k) <==> (holds_key(old(out)@, k) || exists|j: int|
                    0 <= j < i && #[trigger] yields(
                        doc_view(es@[j].1),
                        child_key(key@, es@[j].0@),
                        k,
                        option,
                    )),
        decreases es.len() - i,
    {
        proof {
            assert(g[i as int] == (es@[i as int].0@, doc_view(es@[i as int].1)));
            assert(decreases_to!(g => g[i as int]));
            assert(decreases_to!(doc_view(Document::Group(*es)) => g));
            assert(decreases_to!(g[i as int] => g[i as int].1));
        }
        let sub = make_child_key(key, &es[i].0);
        collect_keys(&es[i].1, &sub, option, out);
        assert forall|k: Seq<char>|
            holds_key(out@, k) <==> (holds_key(old(out)@, k) || exists|j: int|
                0 <= j < i + 1 && #[trigger] yields(
                    doc_view(es@[j].1),
                    child_key(key@, es@[j].0@),
                    k,
                    option,
                )) by {
        }
        i = i + 1;
    }
}

/// The dotted keys of `value` below the prefix `base`, each once: with
/// `ExcludeObjectKeys` those of its translation strings, with `OnlyObjectKeys`
/// those of its groups that hold no further group. The root is never listed.
pub fn get_translation_keys(value: &Document, base: String, object_key_option: ObjectKeyOption) -> (r: Vec<String>)
    ensures
        forall|k: Seq<char>| holds_key(r@, k) <==> root_yields(value@, base@, k, pick_of(object_key_option)),
        distinct_keys(r@),
{
    let pick = match object_key_option {
        ObjectKeyOption::ExcludeObjectKeys => Pick::Strings,
        ObjectKeyOption::OnlyObjectKeys => Pick::TerminalGroups,
    };
    collect_below(value, &base, pick)
}

/// The dotted keys, each once, of the nodes of kind `pick` below the root of `value`,
/// keys starting from the prefix `base`.
pub fn collect_below(value: &Document, base: &String, pick: Pick) -> (r: Vec<String>)
    ensures
        forall|k: Seq<char>| holds_key(r@, k) <==> root_yields(value@, base@, k, pick),
        distinct_keys(r@),
{
    let mut keys: Vec<String> = Vec::new();
    match value {
        Document::Leaf(_) => {},
        Document::Group(es) => {
            collect_children(es, base, pick, &mut keys);
            proof {
                assert forall|k: Seq<char>| holds_key(keys@, k) <==> root_yields(value@, base@, k, pick) by {
                    lemma_group_view_entries(*es, base@, k, pick);
                }
            }
        },
    }
    keys
}

} // verus!
