//! Laws of hint choice and of the hint file, stated over plain values.
use vstd::prelude::*;
use crate::hint_generator::{
    hint_line, hints_text, is_ignored, lemma_hints_roundtrip, open_pred, spec_open_entries,
    spec_parse_hints, storable,
};
use crate::types::{check_matches_entry, CheckView, EntryView};

verus! {

/// A check stands for the entry `e` when it is a hint equal to `e`, or a
/// checked location whose location name is `e`'s, in `e`'s sender's world.
pub open spec fn stands_for(c: CheckView, e: EntryView) -> bool {
    match c {
        CheckView::Spoiler(h) => h == e,
        CheckView::Location(l) => l.location == e.location && l.player == e.sender,
    }
}

/// An entry of a sphere stays open exactly when no check stands for it: no
/// hint equal to it, and no checked location with the same location name in
/// the sender's world. An entry whose location name differs from that of
/// every checked location of its sender's world, and that was not hinted, is
/// open.
pub proof fn lemma_open_entries_exact(sphere: Seq<EntryView>, ignored: Seq<CheckView>, e: EntryView)
    ensures
        spec_open_entries(sphere, ignored).contains(e) <==> (sphere.contains(e) && !exists|k: int|
            0 <= k < ignored.len() && #[trigger] stands_for(ignored[k], e)),
{
    let pred = open_pred(ignored);
    assert(is_ignored(ignored, e) <==> exists|k: int|
        0 <= k < ignored.len() && #[trigger] stands_for(ignored[k], e)) by {
        if is_ignored(ignored, e) {
            let k = choose|k: int|
                0 <= k < ignored.len() && check_matches_entry(#[trigger] ignored[k], e);
            assert(stands_for(ignored[k], e));
        }
        if exists|k: int| 0 <= k < ignored.len() && #[trigger] stands_for(ignored[k], e) {
            let k = choose|k: int| 0 <= k < ignored.len() && #[trigger] stands_for(ignored[k], e);
            assert(check_matches_entry(ignored[k], e));
        }
    }
    if spec_open_entries(sphere, ignored).contains(e) {
        sphere.lemma_filter_contains_rev(pred, e);
        let i = choose|i: int| 0 <= i < spec_open_entries(sphere, ignored).len()
            && spec_open_entries(sphere, ignored)[i] == e;
        sphere.lemma_filter_pred(pred, i);
    }
    if sphere.contains(e) && !is_ignored(ignored, e) {
        let j = choose|j: int| 0 <= j < sphere.len() && sphere[j] == e;
        sphere.lemma_filter_contains(pred, j);
    }
}

/// A hint is read back from the line written for it, whatever its fields
/// hold besides `;` and newlines: every other character may stand in a field.
pub proof fn lemma_hint_line_reads_back(h: EntryView)
    requires
        forall|i: int|
            0 <= i < h.location.len() ==> #[trigger] h.location[i] != ';' && h.location[i] != '\n',
        forall|i: int|
            0 <= i < h.item.len() ==> #[trigger] h.item[i] != ';' && h.item[i] != '\n',
        forall|i: int|
            0 <= i < h.sender.len() ==> #[trigger] h.sender[i] != ';' && h.sender[i] != '\n',
        forall|i: int|
            0 <= i < h.receiver.len() ==> #[trigger] h.receiver[i] != ';' && h.receiver[i] != '\n',
    ensures
        spec_parse_hints(
            h.location + seq![';'] + h.item + seq![';'] + h.sender + seq![';'] + h.receiver + seq!['\n'],
        ) == Some(seq![h]),
{
    assert(storable(h));
    let hs = seq![h];
    assert forall|i: int| 0 <= i < hs.len() implies storable(#[trigger] hs[i]) by {
        assert(hs[i] == h);
    }
    lemma_hints_roundtrip(hs);
    assert(hs.drop_first() =~= Seq::<EntryView>::empty());
    assert(hints_text(hs.drop_first()) =~= Seq::<char>::empty());
    assert(hints_text(hs) =~= hint_line(h));
}

} // verus!
