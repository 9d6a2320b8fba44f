use vstd::prelude::*;
use vstd::string::StringExecFns;

verus! {

/// The file name of the translations of `locale`.
pub open spec fn locale_file_name(locale: Seq<char>) -> Seq<char> {
    locale + ".json"@
}

/// The report that no file holds the translations of the default locale.
pub open spec fn missing_default_message(locale: Seq<char>) -> Seq<char> {
    "Could not find default translation file. Searching for "@ + locale_file_name(locale)
}

/// The position in `file_names` of the first file of the locale
/// `default_locale`.
pub fn find_default_locale_file(file_names: &Vec<String>, default_locale: &String) -> (r: Result<usize, String>)
    ensures
        r is Ok ==> r->Ok_0 < file_names@.len() && file_names@[r->Ok_0 as int]@ == locale_file_name(
            default_locale@,
        ) && forall|j: int| 0 <= j < r->Ok_0 ==> file_names@[j]@ != locale_file_name(default_locale@),
        r is Err <==> forall|j: int|
            0 <= j < file_names@.len() ==> #[trigger] file_names@[j]@ != locale_file_name(default_locale@),
        r is Err ==> r->Err_0@ == missing_default_message(default_locale@),
{
    let wanted = default_locale.clone().concat(".json");
    let mut i: usize = 0;
    while i < file_names.len()
        invariant
            i <= file_names.len(),
            wanted@ == locale_file_name(default_locale@),
            forall|j: int| 0 <= j < i ==> #[trigger] file_names@[j]@ != wanted@,
        decreases file_names.len() - i,
    {
        if file_names[i] == wanted {
            return Ok(i);
        }
        i = i + 1;
    }
    Err(String::from_str("Could not find default translation file. Searching for ").concat(wanted.as_str()))
}

} // verus!
