use crate::text::decimal;
use vstd::prelude::*;

verus! {

/// The error type of the `serde_json` crate.
#[verifier::external_type_specification]
#[verifier::external_body]
pub struct ExJsonError(serde_json::Error);

/// Numbers in decimal digits with commas between them.
pub open spec fn listed(ids: Seq<u32>) -> Seq<char>
    decreases ids.len(),
{
    if ids.len() == 0 {
        Seq::empty()
    } else if ids.len() == 1 {
        decimal(ids[0] as nat)
    } else {
        listed(ids.drop_last()) + seq![','] + decimal(ids.last() as nat)
    }
}

/// The JSON text of an array of numbers, without white space.
pub open spec fn json_array(ids: Seq<u32>) -> Seq<char> {
    seq!['['] + listed(ids) + seq![']']
}

/// What `serde_json` says of an error.
pub uninterp spec fn error_message(error: serde_json::Error) -> Seq<char>;

/// What `serde_json` reads a text as when it is asked for an array of 32-bit numbers: the array,
/// or the message of its error.
pub uninterp spec fn read_array(text: Seq<char>) -> Result<Seq<u32>, Seq<char>>;

/// Whether what is written for a list of numbers is read as that list.
pub open spec fn reads_back(ids: Seq<u32>) -> bool {
    read_array(json_array(ids)) == Ok::<Seq<u32>, Seq<char>>(ids)
}

/// Calls `serde_json::to_string` on a list of numbers.
///
/// An array of integers is written without white space, in decimal digits, and writing it into
/// memory does not fail. `from_str` reads the text as the list.
#[verifier::external_body]
pub(crate) fn write_ids(ids: &Vec<u32>) -> (written: Result<String, serde_json::Error>)
    ensures
        written is Ok,
        written->Ok_0@ == json_array(ids@),
        read_array(written->Ok_0@) is Ok,
        read_array(written->Ok_0@)->Ok_0 == ids@,
{
    serde_json::to_string(ids)
}

/// Calls `serde_json::from_str` for a list of numbers.
///
/// The result depends on the text alone. What `to_string` writes for a list is read as that list.
#[verifier::external_body]
pub(crate) fn read_ids(text: &str) -> (read: Result<Vec<u32>, serde_json::Error>)
    ensures
        match read {
            Ok(ids) => read_array(text@) == Ok::<Seq<u32>, Seq<char>>(ids@),
            Err(error) => read_array(text@) == Err::<Seq<u32>, Seq<char>>(error_message(error)),
        },
        forall|ids: Seq<u32>|
            text@ == #[trigger] json_array(ids) ==> read is Ok && read->Ok_0@ == ids,
{
    serde_json::from_str(text)
}

/// Calls `to_string` on an error of `serde_json`; the text depends on the error alone.
#[verifier::external_body]
pub(crate) fn describe(error: &serde_json::Error) -> (message: String)
    ensures
        message@ == error_message(*error),
{
    error.to_string()
}

/// An array is written between brackets, its numbers in decimal digits with one comma between two
/// of them.
pub proof fn law_arrays_are_written_number_by_number(ids: Seq<u32>, id: u32)
    ensures
        json_array(Seq::empty()) == seq!['[', ']'],
        json_array(seq![id]) == seq!['['] + decimal(id as nat) + seq![']'],
        ids.len() > 0 ==> json_array(ids.push(id)) == json_array(ids).drop_last() + seq![',']
            + decimal(id as nat) + seq![']'],
{
    assert(json_array(Seq::empty()) =~= seq!['[', ']']);
    assert(seq![id][0] == id);
    if ids.len() > 0 {
        assert(ids.push(id).drop_last() =~= ids);
        assert(json_array(ids.push(id)) =~= json_array(ids).drop_last() + seq![','] + decimal(
            id as nat,
        ) + seq![']']);
    }
}

} // verus!
