use vstd::prelude::*;
use vstd::string::StringExecFns;
use crate::keypath::{contains_text, is_infix, split_by, split_text, strings_view};
use crate::document::{contains_key, holds_key};

verus! {

/// Whether each of `words` occurs in `text`.
pub open spec fn has_all_words(words: Seq<Seq<char>>, text: Seq<char>) -> bool {
    forall|i: int| 0 <= i < words.len() ==> is_infix(#[trigger] words[i], text)
}

/// The keys that an input whose space-separated words are `words` suggests.
pub open spec fn suggested_by(words: Seq<Seq<char>>) -> spec_fn(Seq<char>) -> bool {
    |t: Seq<char>| has_all_words(words, t)
}

/// Suggests translation keys while a key is typed.
#[derive(Clone, Debug)]
pub struct UpdateAutocomplete {
    pub translation_keys: Vec<String>,
}

impl UpdateAutocomplete {
    pub fn new(translation_keys: Vec<String>) -> (r: Self)
        ensures
            r.translation_keys == translation_keys,
    {
        UpdateAutocomplete { translation_keys }
    }

    /// The keys, in their order, that contain every space-separated word of
    /// `input`.
    pub fn get_suggestions(&self, input: &str) -> (r: Vec<String>)
        ensures
            strings_view(r@) == strings_view(self.translation_keys@).filter(
                suggested_by(split_by(input@, ' ')),
            ),
    {
        let words = split_text(input, ' ');
        let ghost pred = suggested_by(split_by(input@, ' '));
        let ghost keys = strings_view(self.translation_keys@);
        let mut out: Vec<String> = Vec::new();
        let mut i: usize = 0;
        assert(keys.subrange(0, 0) =~= Seq::<Seq<char>>::empty());
        proof {
            reveal(Seq::filter);
        }
        assert(strings_view(out@) =~= keys.subrange(0, 0).filter(pred));
        while i < self.translation_keys.len()
            invariant
                i <= self.translation_keys.len(),
                keys == strings_view(self.translation_keys@),
                pred == suggested_by(split_by(input@, ' ')),
                strings_view(words@) == split_by(input@, ' '),
                strings_view(out@) == keys.subrange(0, i as int).filter(pred),
            decreases self.translation_keys.len() - i,
        {
            let t = &self.translation_keys[i];
            let mut all = true;
            let mut j: usize = 0;
            while j < words.len() && all
                invariant
                    j <= words.len(),
                    strings_view(words@) == split_by(input@, ' '),
                    all ==> forall|w: int| 0 <= w < j ==> is_infix(#[trigger] words@[w]@, t@),
                    !all ==> !has_all_words(split_by(input@, ' '), t@),
                decreases words.len() - j + (if all { 1int } else { 0int }),
            {
                if !contains_text(t.as_str(), words[j].as_str()) {
                    all = false;
                    assert(strings_view(words@)[j as int] == words@[j as int]@);
                } else {
                    j = j + 1;
                }
            }
            proof {
                assert(pred(t@) == has_all_words(split_by(input@, ' '), t@));
                assert(strings_view(words@).len() == words@.len());
                if all {
                    assert forall|w: int| 0 <= w < split_by(input@, ' ').len() implies is_infix(#[trigger] split_by(input@, ' ')[w], t@) by {
                        assert(strings_view(words@)[w] == words@[w]@);
                    }
                }
                assert(all == pred(t@));
                assert(keys.subrange(0, i + 1).drop_last() =~= keys.subrange(0, i as int));
                assert(keys.subrange(0, i + 1).last() == t@);
                reveal(Seq::filter);
            }
            let ghost before = out@;
            if all {
                out.push(t.clone());
                assert(strings_view(out@) =~= strings_view(before).push(t@));
            }
            i = i + 1;
        }
        assert(keys.subrange(0, self.translation_keys@.len() as int) =~= keys);
        out
    }
}

/// The verdict on a key typed at a prompt.
#[derive(Debug, PartialEq, Eq)]
pub enum KeyValidation {
    Valid,
    Invalid(String),
}

/// The message for a key that has sub-keys and so cannot be chosen.
pub open spec fn has_sub_keys_message(input: Seq<char>) -> Seq<char> {
    "'"@ + input + "' has sub-keys. Can not select this key."@
}

/// The message for a key that the default locale file lacks.
pub open spec fn unknown_key_message(input: Seq<char>) -> Seq<char> {
    "'"@ + input + "' is not a valid key in the main locale file"@
}

/// Accepts the keys of a list, or, when inverted, the keys outside it.
#[derive(Clone, Debug)]
pub struct TranslationKeyValidator {
    pub translation_keys: Vec<String>,
    pub inverted: bool,
}

impl TranslationKeyValidator {
    pub fn new(translation_keys: Vec<String>, inverted: bool) -> (r: Self)
        ensures
            r.translation_keys == translation_keys,
            r.inverted == inverted,
    {
        Self { translation_keys, inverted }
    }

    /// Whether `input` may be chosen: it must be one of the keys, or, when
    /// inverted, none of them.
    pub fn validate(&self, input: &str) -> (r: KeyValidation)
        ensures
            holds_key(self.translation_keys@, input@) != self.inverted ==> r is Valid,
            holds_key(self.translation_keys@, input@) && self.inverted ==> r is Invalid
                && r->Invalid_0@ == has_sub_keys_message(input@),
            !holds_key(self.translation_keys@, input@) && !self.inverted ==> r is Invalid
                && r->Invalid_0@ == unknown_key_message(input@),
    {
        let owned = String::from_str(input);
        let known = contains_key(&self.translation_keys, &owned);
        if known {
            if self.inverted {
                KeyValidation::Invalid(
                    String::from_str("'").concat(input).concat("' has sub-keys. Can not select this key."),
                )
            } else {
                KeyValidation::Valid
            }
        } else {
            if self.inverted {
                KeyValidation::Valid
            } else {
                KeyValidation::Invalid(
                    String::from_str("'").concat(input).concat("' is not a valid key in the main locale file"),
                )
            }
        }
    }
}

} // verus!
