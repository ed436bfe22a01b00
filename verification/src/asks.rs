//! The list of files on the page: files are added at the end when uploaded,
//! replaced in place when edited, and taken out when deleted.
use vstd::prelude::*;

use crate::ask::Ask;
use crate::version::LiveVersion;

verus! {

/// Every file of the list is still to be converted (none is a conversion
/// result), as `convert_all` needs.
pub open spec fn all_to_convert(asks: Seq<Ask>) -> bool {
    forall|i: int| 0 <= i < asks.len() ==> (#[trigger] asks[i]).to_version is Some
}

/// Appends `uploads` to the end of the list, in their order.
pub fn add_asks(asks: &mut Vec<Ask>, uploads: Vec<Ask>)
    ensures
        final(asks)@ == old(asks)@ + uploads@,
{
    let mut uploads = uploads;
    asks.append(&mut uploads);
}

/// Replaces the file at `index` by `value`; every other file stays where it is.
pub fn edit_ask(asks: &mut Vec<Ask>, index: usize, value: Ask)
    requires
        index < old(asks).len(),
    ensures
        final(asks)@ == old(asks)@.update(index as int, value),
{
    asks.set(index, value);
}

/// Takes out the file at `index`; the files after it move up by one.
pub fn delete_ask(asks: &mut Vec<Ask>, index: usize)
    requires
        index < old(asks).len(),
    ensures
        final(asks)@ == old(asks)@.remove(index as int),
{
    let _removed = asks.remove(index);
}

/// Whether the page shows the hint to drop files: when the list is empty.
pub fn shows_drop_hint(asks: &Vec<Ask>) -> (b: bool)
    ensures
        b == (asks.len() == 0),
{
    asks.len() == 0
}

/// After an edit, the edited place holds the new file, and the list keeps its
/// length and every other file.
pub proof fn lemma_edit_keeps_others(asks: Seq<Ask>, index: int, value: Ask)
    requires
        0 <= index < asks.len(),
    ensures
        asks.update(index, value).len() == asks.len(),
        asks.update(index, value)[index] == value,
        forall|j: int|
            0 <= j < asks.len() && j != index ==> #[trigger] asks.update(index, value)[j] == asks[j],
{
}

/// After a delete, the list is one shorter, the files before the deleted one
/// stay in place, and those after it move up by one.
pub proof fn lemma_delete_shifts(asks: Seq<Ask>, index: int)
    requires
        0 <= index < asks.len(),
    ensures
        asks.remove(index).len() == asks.len() - 1,
        forall|j: int| 0 <= j < index ==> #[trigger] asks.remove(index)[j] == asks[j],
        forall|j: int| index <= j < asks.len() - 1 ==> #[trigger] asks.remove(index)[j] == asks[j + 1],
{
}

/// Uploading keeps the files already listed, in place, and lists the uploads
/// after them in their order.
pub proof fn lemma_add_keeps_order(asks: Seq<Ask>, uploads: Seq<Ask>)
    ensures
        (asks + uploads).len() == asks.len() + uploads.len(),
        forall|j: int| 0 <= j < asks.len() ==> #[trigger] (asks + uploads)[j] == asks[j],
        forall|j: int| 0 <= j < uploads.len() ==> #[trigger] (asks + uploads)[asks.len() + j] == uploads[j],
{
}

/// The list of files to convert only ever holds files to convert: uploads are
/// files to convert, each edit keeps a file one, and adding, replacing and
/// deleting keep the list so.
pub proof fn lemma_list_stays_convertible(
    asks: Seq<Ask>,
    uploads: Seq<Ask>,
    index: int,
    edited: Ask,
    version: LiveVersion,
    contents: String,
)
    requires
        all_to_convert(asks),
        all_to_convert(uploads),
        0 <= index < asks.len(),
    ensures
        all_to_convert(asks + uploads),
        all_to_convert(asks.remove(index)),
        !(Ask { version, ..asks[index] }).converted(),
        !(Ask { to_version: Some(version), ..asks[index] }).converted(),
        !(Ask { contents, ..asks[index] }).converted(),
        edited.to_version is Some ==> all_to_convert(asks.update(index, edited)),
{
    assert forall|i: int| 0 <= i < (asks + uploads).len() implies (#[trigger] (asks + uploads)[i]).to_version is Some by {
        if i >= asks.len() {
            assert((asks + uploads)[i] == uploads[i - asks.len()]);
        }
    }
    assert forall|i: int| 0 <= i < asks.remove(index).len() implies (#[trigger] asks.remove(index)[i]).to_version is Some by {
        if i >= index {
            assert(asks.remove(index)[i] == asks[i + 1]);
        }
    }
}

} // verus!
