use vstd::prelude::*;
use vstd::string::StringExecFns;
use crate::document::{collect_below, contains_key, distinct_keys, holds_key, root_yields, Doc, Document, Pick};
use crate::keypath::strings_view;

verus! {

broadcast use vstd::seq_lib::group_filter_ensures;

/// The issue reported when the file `file` lacks the key `key`.
pub open spec fn missing_issue(file: Seq<char>, key: Seq<char>) -> Seq<char> {
    file + " is missing key '"@ + key + "'"@
}

/// The issue reported when the key `key` of the file `file` holds an empty
/// string.
pub open spec fn empty_issue(file: Seq<char>, key: Seq<char>) -> Seq<char> {
    file + " has an empty value '"@ + key + "'"@
}

/// Whether `k` is not the key of a translation string of `candidate`.
pub open spec fn lacks(candidate: Doc) -> spec_fn(Seq<char>) -> bool {
    |k: Seq<char>| !root_yields(candidate, Seq::empty(), k, Pick::Strings)
}

/// The keys of `reference_keys` that are not keys of translation strings of
/// `candidate`, in their order in `reference_keys`.
pub fn find_missing_keys(reference_keys: &Vec<String>, candidate: &Document) -> (r: Vec<String>)
    ensures
        strings_view(r@) == strings_view(reference_keys@).filter(lacks(candidate@)),
        forall|k: Seq<char>|
            holds_key(r@, k) <==> (holds_key(reference_keys@, k) && !root_yields(
                candidate@,
                Seq::empty(),
                k,
                Pick::Strings,
            )),
        r@.len() == 0 <==> forall|j: int|
            0 <= j < reference_keys@.len() ==> root_yields(
                candidate@,
                Seq::empty(),
                #[trigger] reference_keys@[j]@,
                Pick::Strings,
            ),
{
    let present = collect_below(candidate, &String::new(), Pick::Strings);
    let ghost pred = lacks(candidate@);
    let ghost keys = strings_view(reference_keys@);
    let mut missing: Vec<String> = Vec::new();
    let mut i: usize = 0;
    proof {
        reveal(Seq::filter);
    }
    assert(strings_view(missing@) =~= keys.subrange(0, 0).filter(pred));
    while i < reference_keys.len()
        invariant
            i <= reference_keys.len(),
            pred == lacks(candidate@),
            keys == strings_view(reference_keys@),
            forall|k: Seq<char>| holds_key(present@, k) <==> root_yields(candidate@, Seq::empty(), k, Pick::Strings),
            strings_view(missing@) == keys.subrange(0, i as int).filter(pred),
        decreases reference_keys.len() - i,
    {
        let ghost before = missing@;
        let found = contains_key(&present, &reference_keys[i]);
        proof {
            assert(keys.subrange(0, i + 1).drop_last() =~= keys.subrange(0, i as int));
            assert(keys.subrange(0, i + 1).last() == reference_keys@[i as int]@);
            assert(pred(reference_keys@[i as int]@) == !found);
            reveal(Seq::filter);
        }
        if !found {
            missing.push(reference_keys[i].clone());
            assert(strings_view(missing@) =~= strings_view(before).push(reference_keys@[i as int]@));
        }
        i = i + 1;
    }
    assert(keys.subrange(0, reference_keys@.len() as int) =~= keys);
    proof {
        let f = keys.filter(pred);
        assert forall|k: Seq<char>|
            holds_key(missing@, k) <==> (holds_key(reference_keys@, k) && !root_yields(
                candidate@,
                Seq::empty(),
                k,
                Pick::Strings,
            )) by {
            if holds_key(missing@, k) {
                let j = choose|j: int| 0 <= j < missing@.len() && #[trigger] missing@[j]@ == k;
                assert(strings_view(missing@)[j] == k);
                assert(f.contains(k));
                keys.lemma_filter_contains_rev(pred, k);
                let t = choose|t: int| 0 <= t < keys.len() && keys[t] == k;
                assert(keys[t] == reference_keys@[t]@);
                assert(pred(f[j]));
            }
            if holds_key(reference_keys@, k) && !root_yields(candidate@, Seq::empty(), k, Pick::Strings) {
                let j = choose|j: int| 0 <= j < reference_keys@.len() && #[trigger] reference_keys@[j]@ == k;
                assert(keys[j] == k);
                assert(keys.contains(k));
                assert(f.contains(k));
                let t = choose|t: int| 0 <= t < f.len() && f[t] == k;
                assert(missing@[t]@ == k);
            }
        }
        if missing@.len() == 0 {
            assert forall|j: int| 0 <= j < reference_keys@.len() implies root_yields(
                candidate@,
                Seq::empty(),
                #[trigger] reference_keys@[j]@,
                Pick::Strings,
            ) by {
                if !root_yields(candidate@, Seq::empty(), reference_keys@[j]@, Pick::Strings) {
                    assert(holds_key(reference_keys@, reference_keys@[j]@));
                    assert(!holds_key(missing@, reference_keys@[j]@));
                }
            }
        }
        if missing@.len() > 0 {
            assert(holds_key(missing@, missing@[0]@));
        }
    }
    missing
}

/// The dotted keys, each once, of the empty translation strings of `value`.
pub fn find_empty_leaves(value: &Document) -> (r: Vec<String>)
    ensures
        forall|k: Seq<char>| holds_key(r@, k) <==> root_yields(value@, Seq::empty(), k, Pick::EmptyStrings),
        distinct_keys(r@),
{
    collect_below(value, &String::new(), Pick::EmptyStrings)
}

/// The issue that the file `file_name` lacks the key `key`.
pub fn missing_key_issue(file_name: &String, key: &String) -> (r: String)
    ensures
        r@ == missing_issue(file_name@, key@),
{
    file_name.clone().concat(" is missing key '").concat(key.as_str()).concat("'")
}

/// The issue that the key `key` of the file `file_name` is empty.
pub fn empty_value_issue(file_name: &String, key: &String) -> (r: String)
    ensures
        r@ == empty_issue(file_name@, key@),
{
    file_name.clone().concat(" has an empty value '").concat(key.as_str()).concat("'")
}

/// The issue about the key `key` of the file `file`: an empty string when
/// `empty`, else a missing key.
pub open spec fn issue(file: Seq<char>, key: Seq<char>, empty: bool) -> Seq<char> {
    if empty {
        empty_issue(file, key)
    } else {
        missing_issue(file, key)
    }
}

/// The issues about each key of a sequence, in the file `file`.
pub open spec fn issues_for(file: Seq<char>, empty: bool) -> spec_fn(Seq<char>) -> Seq<char> {
    |k: Seq<char>| issue(file, k, empty)
}

/// Appends to `out` the issue about each key of `keys` in the file
/// `file_name`, one per key, in order.
fn append_issues(out: &mut Vec<String>, file_name: &String, keys: &Vec<String>, empty: bool)
    ensures
        strings_view(final(out)@) == strings_view(old(out)@) + strings_view(keys@).map_values(
            issues_for(file_name@, empty),
        ),
{
    let ghost f = issues_for(file_name@, empty);
    let ghost start = strings_view(out@);
    let mut i: usize = 0;
    assert(strings_view(out@) =~= start + strings_view(keys@).subrange(0, 0).map_values(f));
    while i < keys.len()
        invariant
            i <= keys.len(),
            f == issues_for(file_name@, empty),
            start == strings_view(old(out)@),
            strings_view(out@) == start + strings_view(keys@).subrange(0, i as int).map_values(f),
        decreases keys.len() - i,
    {
        let item = if empty {
            empty_value_issue(file_name, &keys[i])
        } else {
            missing_key_issue(file_name, &keys[i])
        };
        let ghost before = strings_view(out@);
        out.push(item);
        assert(item@ == f(keys@[i as int]@));
        assert(strings_view(out@) =~= before.push(item@));
        assert(strings_view(keys@).subrange(0, i + 1).map_values(f) =~= strings_view(keys@).subrange(
            0,
            i as int,
        ).map_values(f).push(item@));
        i = i + 1;
    }
    assert(strings_view(keys@).subrange(0, keys@.len() as int) =~= strings_view(keys@));
}

/// The issues of the file `file_name`, whose document is `candidate`: a
/// missing-key issue for each key of `reference_keys` that is not the key of
/// a translation string of `candidate`, in their order, then, when
/// `fail_on_empty`, one empty-value issue for each empty translation string
/// of `candidate`.
pub fn file_issues(file_name: &String, reference_keys: &Vec<String>, candidate: &Document, fail_on_empty: bool) -> (r: Vec<String>)
    ensures
        !fail_on_empty ==> strings_view(r@) == strings_view(reference_keys@).filter(lacks(candidate@)).map_values(
            issues_for(file_name@, false),
        ),
        !fail_on_empty ==> (r@.len() == 0 <==> forall|j: int|
            0 <= j < reference_keys@.len() ==> root_yields(
                candidate@,
                Seq::empty(),
                #[trigger] reference_keys@[j]@,
                Pick::Strings,
            )),
        fail_on_empty ==> exists|e: Seq<Seq<char>>|
            {
                &&& forall|i: int, j: int| 0 <= i < j < e.len() ==> e[i] != e[j]
                &&& forall|k: Seq<char>|
                    #[trigger] e.contains(k) <==> root_yields(candidate@, Seq::empty(), k, Pick::EmptyStrings)
                &&& strings_view(r@) == strings_view(reference_keys@).filter(lacks(candidate@)).map_values(
                    issues_for(file_name@, false),
                ) + e.map_values(issues_for(file_name@, true))
            },
{
    let mut issues: Vec<String> = Vec::new();
    let missing = find_missing_keys(reference_keys, candidate);
    append_issues(&mut issues, file_name, &missing, false);
    assert(strings_view(issues@) =~= strings_view(missing@).map_values(issues_for(file_name@, false)));
    assert(issues@.len() == strings_view(issues@).len());
    if fail_on_empty {
        let empty = find_empty_leaves(candidate);
        append_issues(&mut issues, file_name, &empty, true);
        proof {
            let e = strings_view(empty@);
            assert forall|k: Seq<char>| #[trigger] e.contains(k) <==> root_yields(candidate@, Seq::empty(), k, Pick::EmptyStrings) by {
                if e.contains(k) {
                    let j = choose|j: int| 0 <= j < e.len() && e[j] == k;
                    assert(empty@[j]@ == k);
                    assert(holds_key(empty@, k));
                }
                if root_yields(candidate@, Seq::empty(), k, Pick::EmptyStrings) {
                    assert(holds_key(empty@, k));
                    let j = choose|j: int| 0 <= j < empty@.len() && #[trigger] empty@[j]@ == k;
                    assert(e[j] == k);
                }
            }
            assert forall|i: int, j: int| 0 <= i < j < e.len() implies e[i] != e[j] by {
                assert(e[i] == empty@[i]@ && e[j] == empty@[j]@);
            }
        }
    }
    issues
}

} // verus!
