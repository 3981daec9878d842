//! The grammar of an Archipelago spoiler log: the slot list and the
//! playthrough, parsed from the characters of the text.
//!
//! Every parser below is given twice: as a spec function on `Seq<char>`
//! (`spec_*`, which says what the grammar accepts, where it stops and what it
//! yields) and as an executable function on a `Vec<char>` that is proved to
//! compute exactly that. A spec function `spec_x_at(.., s, i)` answers `None`
//! when the grammar rejects the text at position `i`, and otherwise the value
//! read together with the position just after it.
use vstd::prelude::*;
use crate::text::{
    chars_of, digit_pred, has_prefix_at, ident_pred, is_ascii_digit, is_ascii_ident_start,
    is_digit, is_ident_char, is_ident_start, lemma_run_end, lemma_run_end_at, lit_at,
    newline_pred, run_end, skip_digits, skip_ident_chars, skip_newlines, skip_whitespace, skip_ws,
    string_of, trim, trim_range, ws_pred,
};
use crate::types::EntryView;
pub use crate::types::{Playthrough, Slot, Sphere, SpoilerEntry};

verus! {

/// An object of a playthrough line: a location or an item, and the slot whose
/// world it belongs to.
#[derive(Debug)]
pub struct Thingymabob {
    pub object: String,
    pub player: String,
}

pub struct ObjectView {
    pub object: Seq<char>,
    pub player: Seq<char>,
}

impl PartialEq for Thingymabob {
    fn eq(&self, other: &Thingymabob) -> (r: bool) {
        self.object == other.object && self.player == other.player
    }
}

impl vstd::std_specs::cmp::PartialEqSpecImpl for Thingymabob {
    open spec fn obeys_eq_spec() -> bool {
        true
    }

    open spec fn eq_spec(&self, other: &Thingymabob) -> bool {
        self@ == other@
    }
}

impl View for Thingymabob {
    type V = ObjectView;

    open spec fn view(&self) -> ObjectView {
        ObjectView { object: self.object@, player: self.player@ }
    }
}

/// `Player `
pub open spec fn player_keyword() -> Seq<char> {
    seq!['P', 'l', 'a', 'y', 'e', 'r', ' ']
}

/// `Playthrough`
pub open spec fn playthrough_keyword() -> Seq<char> {
    seq!['P', 'l', 'a', 'y', 't', 'h', 'r', 'o', 'u', 'g', 'h']
}

/// The location given to items that the server hands out at the start.
pub open spec fn server_name() -> Seq<char> {
    seq!['S', 'e', 'r', 'v', 'e', 'r']
}

/// The sender given to items that the server hands out at the start.
pub open spec fn archipelago_name() -> Seq<char> {
    seq!['A', 'r', 'c', 'h', 'i', 'p', 'e', 'l', 'a', 'g', 'o']
}

// ---------------------------------------------------------------------------
// Slots
// ---------------------------------------------------------------------------

/// A slot line at `i`: optional whitespace, `Player `, any digits, `:`,
/// optional whitespace, then the slot's name, an ASCII identifier
/// (`[A-Za-z_][A-Za-z0-9_]*`). Yields the name.
pub open spec fn spec_slot_at(s: Seq<char>, i: int) -> Option<(Seq<char>, int)> {
    let a = skip_ws(s, i);
    let c = run_end(s, a + 7, digit_pred());
    let e = skip_ws(s, c + 1);
    let f = run_end(s, e + 1, ident_pred());
    if has_prefix_at(s, a, player_keyword()) && c < s.len() && s[c] == ':' && e < s.len()
        && is_ident_start(s[e]) {
        Some((s.subrange(e, f), f))
    } else {
        None
    }
}

pub proof fn lemma_slot_at_bounds(s: Seq<char>, i: int)
    requires
        0 <= i <= s.len(),
    ensures
        spec_slot_at(s, i) matches Some((n, f)) ==> i < f <= s.len() && n == s.subrange(
            f - n.len(),
            f,
        ) && n.len() > 0,
{
    let a = skip_ws(s, i);
    lemma_run_end(s, i, ws_pred());
    if has_prefix_at(s, a, player_keyword()) {
        lemma_run_end(s, a + 7, digit_pred());
        let c = run_end(s, a + 7, digit_pred());
        if c < s.len() {
            lemma_run_end(s, c + 1, ws_pred());
            let e = skip_ws(s, c + 1);
            if e < s.len() {
                lemma_run_end(s, e + 1, ident_pred());
            }
        }
    }
}

/// The names of the slot lines found by scanning the text from `i`: at each
/// position, a slot line is taken if one starts there, and scanning goes on
/// after it; otherwise one character is skipped.
pub open spec fn spec_slots_from(s: Seq<char>, i: int) -> Seq<Seq<char>>
    decreases s.len() - i,
{
    if 0 <= i < s.len() {
        match spec_slot_at(s, i) {
            Some((n, f)) => {
                proof {
                    lemma_slot_at_bounds(s, i);
                }
                seq![n] + spec_slots_from(s, f)
            },
            None => spec_slots_from(s, i + 1),
        }
    } else {
        Seq::empty()
    }
}

/// The slots of a spoiler log: every slot line of the text, in order.
pub open spec fn spec_slots(s: Seq<char>) -> Seq<Seq<char>> {
    spec_slots_from(s, 0)
}


// ---------------------------------------------------------------------------
// Objects
// ---------------------------------------------------------------------------

/// The first slot, from index `k` on, whose name occurs at `i`.
pub open spec fn spec_pick_slot(names: Seq<Seq<char>>, s: Seq<char>, i: int, k: int) -> Option<
    int,
>
    decreases names.len() - k,
{
    if 0 <= k < names.len() {
        if has_prefix_at(s, i, names[k]) {
            Some(k)
        } else {
            spec_pick_slot(names, s, i, k + 1)
        }
    } else {
        None
    }
}

/// The name of a known slot at `i`: the first slot of the list whose name
/// occurs there. Yields the slot's index.
pub open spec fn spec_existing_slot_at(names: Seq<Seq<char>>, s: Seq<char>, i: int) -> Option<
    (int, int),
> {
    match spec_pick_slot(names, s, i, 0) {
        Some(k) => Some((k, i + names[k].len())),
        None => None,
    }
}

/// A known slot's name in round brackets at `j`, such as `(slot1)`.
pub open spec fn spec_slot_ref_at(names: Seq<Seq<char>>, s: Seq<char>, j: int) -> Option<
    (int, int),
> {
    if 0 <= j < s.len() && s[j] == '(' {
        match spec_existing_slot_at(names, s, j + 1) {
            Some((k, e)) => if e < s.len() && s[e] == ')' {
                Some((k, e + 1))
            } else {
                None
            },
            None => None,
        }
    } else {
        None
    }
}

/// Where the text of an object that starts at `i` stops: before the first
/// `{`, `}` or bracketed slot name, or at the end.
pub open spec fn spec_location_end(names: Seq<Seq<char>>, s: Seq<char>, i: int) -> int
    decreases s.len() - i,
{
    if 0 <= i < s.len() && s[i] != '{' && s[i] != '}' && spec_slot_ref_at(names, s, i) is None {
        spec_location_end(names, s, i + 1)
    } else {
        i
    }
}

/// An object at `i`: text, then a known slot's name in brackets. The object
/// is that text without surrounding whitespace; the player is the slot.
pub open spec fn spec_object_at(names: Seq<Seq<char>>, s: Seq<char>, i: int) -> Option<
    (ObjectView, int),
> {
    let m = spec_location_end(names, s, i);
    match spec_slot_ref_at(names, s, m) {
        Some((k, n)) => Some((ObjectView { object: trim(s.subrange(i, m)), player: names[k] }, n)),
        None => None,
    }
}

pub proof fn lemma_pick_slot(names: Seq<Seq<char>>, s: Seq<char>, i: int, k: int)
    ensures
        spec_pick_slot(names, s, i, k) matches Some(x) ==> k <= x < names.len() && has_prefix_at(
            s,
            i,
            names[x],
        ),
    decreases names.len() - k,
{
    if 0 <= k < names.len() && !has_prefix_at(s, i, names[k]) {
        lemma_pick_slot(names, s, i, k + 1);
    }
}

pub proof fn lemma_slot_ref_bounds(names: Seq<Seq<char>>, s: Seq<char>, j: int)
    ensures
        spec_slot_ref_at(names, s, j) matches Some((k, n)) ==> 0 <= j && j + 2 <= n <= s.len() && 0
            <= k < names.len(),
{
    lemma_pick_slot(names, s, j + 1, 0);
}

pub proof fn lemma_location_end(names: Seq<Seq<char>>, s: Seq<char>, i: int)
    requires
        0 <= i <= s.len(),
    ensures
        i <= spec_location_end(names, s, i) <= s.len(),
    decreases s.len() - i,
{
    if i < s.len() && s[i] != '{' && s[i] != '}' && spec_slot_ref_at(names, s, i) is None {
        lemma_location_end(names, s, i + 1);
    }
}

pub proof fn lemma_object_bounds(names: Seq<Seq<char>>, s: Seq<char>, i: int)
    ensures
        spec_object_at(names, s, i) matches Some((o, n)) ==> 0 <= i < n <= s.len() && exists|k: int|
            0 <= k < names.len() && o.player == names[k],
{
    let m = spec_location_end(names, s, i);
    if 0 <= i <= s.len() {
        lemma_location_end(names, s, i);
    }
    lemma_slot_ref_bounds(names, s, m);
    if let Some((k, n)) = spec_slot_ref_at(names, s, m) {
        if i < 0 || i > s.len() {
            assert(m == i);
        }
        assert(0 <= k < names.len());
    }
}


// ---------------------------------------------------------------------------
// Checks, spheres and the playthrough
// ---------------------------------------------------------------------------

/// A check sent from one world to another at `i`: optional whitespace, the
/// location (an object), optional whitespace, `:`, optional whitespace, the
/// item (an object).
pub open spec fn spec_sent_check_at(names: Seq<Seq<char>>, s: Seq<char>, i: int) -> Option<
    (EntryView, int),
> {
    match spec_object_at(names, s, skip_ws(s, i)) {
        Some((send, b)) => {
            let c = skip_ws(s, b);
            if 0 <= c < s.len() && s[c] == ':' {
                match spec_object_at(names, s, skip_ws(s, c + 1)) {
                    Some((recv, f)) => Some(
                        (
                            EntryView {
                                location: send.object,
                                item: recv.object,
                                sender: send.player,
                                receiver: recv.player,
                            },
                            f,
                        ),
                    ),
                    None => None,
                }
            } else {
                None
            }
        },
        None => None,
    }
}

/// An item that the server hands out at the start, at `i`: just the item (an
/// object). Its location is `Server`, its sender `Archipelago`.
pub open spec fn spec_starting_check_at(names: Seq<Seq<char>>, s: Seq<char>, i: int) -> Option<
    (EntryView, int),
> {
    match spec_object_at(names, s, i) {
        Some((recv, f)) => Some(
            (
                EntryView {
                    location: server_name(),
                    item: recv.object,
                    sender: archipelago_name(),
                    receiver: recv.player,
                },
                f,
            ),
        ),
        None => None,
    }
}

/// A playthrough line at `i`: a sent check if one is there, else a starting
/// item.
pub open spec fn spec_check_at(names: Seq<Seq<char>>, s: Seq<char>, i: int) -> Option<
    (EntryView, int),
> {
    match spec_sent_check_at(names, s, i) {
        Some(r) => Some(r),
        None => spec_starting_check_at(names, s, i),
    }
}

pub proof fn lemma_check_bounds(names: Seq<Seq<char>>, s: Seq<char>, i: int)
    ensures
        spec_check_at(names, s, i) matches Some((e, n)) ==> 0 <= i < n <= s.len(),
{
    let a = skip_ws(s, i);
    if 0 <= i <= s.len() {
        lemma_run_end(s, i, ws_pred());
    }
    lemma_object_bounds(names, s, a);
    lemma_object_bounds(names, s, i);
    if let Some((send, b)) = spec_object_at(names, s, a) {
        let c = skip_ws(s, b);
        lemma_run_end(s, b, ws_pred());
        if 0 <= c < s.len() && s[c] == ':' {
            lemma_run_end(s, c + 1, ws_pred());
            lemma_object_bounds(names, s, skip_ws(s, c + 1));
        }
    }
}

/// The lines of a sphere from `j`: each line may be preceded and followed by
/// whitespace. Yields the entries and the position after the last line and
/// its trailing whitespace (`j` itself when there is no line).
pub open spec fn spec_entries_from(names: Seq<Seq<char>>, s: Seq<char>, j: int) -> (
    Seq<EntryView>,
    int,
)
    decreases s.len() - j,
{
    match spec_check_at(names, s, skip_ws(s, j)) {
        Some((e, b)) => {
            proof {
                lemma_check_bounds(names, s, skip_ws(s, j));
                if 0 <= j <= s.len() {
                    lemma_run_end(s, j, ws_pred());
                }
                lemma_run_end(s, b, ws_pred());
            }
            let (rest, r) = spec_entries_from(names, s, skip_ws(s, b));
            (seq![e] + rest, r)
        },
        None => (Seq::empty(), j),
    }
}

/// The end of a sphere number that starts with a digit at `a`: a single `0`,
/// or a non-zero digit followed by any digits.
pub open spec fn spec_number_end(s: Seq<char>, a: int) -> int {
    if s[a] == '0' {
        a + 1
    } else {
        run_end(s, a + 1, digit_pred())
    }
}

/// The rest of a sphere after its number, from `b`: `:`, optional
/// whitespace, `{`, its lines, `}`.
pub open spec fn spec_sphere_body_at(names: Seq<Seq<char>>, s: Seq<char>, b: int) -> Option<
    (Seq<EntryView>, int),
> {
    if 0 <= b < s.len() && s[b] == ':' {
        let c = skip_ws(s, b + 1);
        if c < s.len() && s[c] == '{' {
            let (entries, r) = spec_entries_from(names, s, c + 1);
            if 0 <= r < s.len() && s[r] == '}' {
                Some((entries, r + 1))
            } else {
                None
            }
        } else {
            None
        }
    } else {
        None
    }
}

/// A sphere at `i`: optional whitespace, its number, then the rest of the
/// sphere.
pub open spec fn spec_sphere_at(names: Seq<Seq<char>>, s: Seq<char>, i: int) -> Option<
    (Seq<EntryView>, int),
> {
    let a = skip_ws(s, i);
    if 0 <= a < s.len() && is_digit(s[a]) {
        spec_sphere_body_at(names, s, spec_number_end(s, a))
    } else {
        None
    }
}

/// A whole text that is one sphere: what `sphere_parser` reads.
pub open spec fn spec_whole_sphere(names: Seq<Seq<char>>, s: Seq<char>) -> Option<
    Seq<EntryView>,
> {
    match spec_sphere_at(names, s, 0) {
        Some((v, n)) => if n == s.len() {
            Some(v)
        } else {
            None
        },
        None => None,
    }
}

pub proof fn lemma_entries_bounds(names: Seq<Seq<char>>, s: Seq<char>, j: int)
    requires
        0 <= j <= s.len(),
    ensures
        j <= spec_entries_from(names, s, j).1 <= s.len(),
    decreases s.len() - j,
{
    lemma_run_end(s, j, ws_pred());
    if let Some((e, b)) = spec_check_at(names, s, skip_ws(s, j)) {
        lemma_check_bounds(names, s, skip_ws(s, j));
        lemma_run_end(s, b, ws_pred());
        lemma_entries_bounds(names, s, skip_ws(s, b));
    }
}

pub proof fn lemma_sphere_bounds(names: Seq<Seq<char>>, s: Seq<char>, i: int)
    ensures
        spec_sphere_at(names, s, i) matches Some((v, n)) ==> 0 <= i < n <= s.len(),
{
    if 0 <= i <= s.len() {
        lemma_run_end(s, i, ws_pred());
    }
    let a = skip_ws(s, i);
    if 0 <= a < s.len() && is_digit(s[a]) {
        if s[a] != '0' {
            lemma_run_end(s, a + 1, digit_pred());
        }
        let b = spec_number_end(s, a);
        if b < s.len() && s[b] == ':' {
            lemma_run_end(s, b + 1, ws_pred());
            let c = skip_ws(s, b + 1);
            if c < s.len() && s[c] == '{' {
                lemma_entries_bounds(names, s, c + 1);
            }
        }
    }
}

/// The spheres from `j`: each sphere may be followed by newlines.
pub open spec fn spec_spheres_from(names: Seq<Seq<char>>, s: Seq<char>, j: int) -> Seq<
    Seq<EntryView>,
>
    decreases s.len() - j,
{
    match spec_sphere_at(names, s, j) {
        Some((v, e)) => {
            proof {
                lemma_sphere_bounds(names, s, j);
                lemma_run_end(s, e, newline_pred());
            }
            seq![v] + spec_spheres_from(names, s, run_end(s, e, newline_pred()))
        },
        None => Seq::empty(),
    }
}

/// The first position at or after `i` where `lit` occurs, or the end.
pub open spec fn spec_find_from(s: Seq<char>, i: int, lit: Seq<char>) -> int
    decreases s.len() - i,
{
    if 0 <= i < s.len() && !has_prefix_at(s, i, lit) {
        spec_find_from(s, i + 1, lit)
    } else {
        i
    }
}

pub proof fn lemma_find_from_bounds(s: Seq<char>, i: int, lit: Seq<char>)
    requires
        0 <= i <= s.len(),
    ensures
        i <= spec_find_from(s, i, lit) <= s.len(),
    decreases s.len() - i,
{
    if i < s.len() && !has_prefix_at(s, i, lit) {
        lemma_find_from_bounds(s, i + 1, lit);
    }
}

/// `lit` does not occur before the position that `spec_find_from` finds.
pub proof fn lemma_find_from_first(s: Seq<char>, i: int, lit: Seq<char>, q: int)
    requires
        0 <= i <= q < spec_find_from(s, i, lit),
    ensures
        !has_prefix_at(s, q, lit),
    decreases q - i,
{
    if i < q {
        lemma_find_from_first(s, i + 1, lit, q);
    }
}

/// The playthrough of a spoiler log: at the first occurrence of
/// `Playthrough`, that word, optional whitespace, `:`, optional whitespace,
/// then as many spheres as follow. Rejected when `Playthrough` does not
/// occur or its first occurrence is not followed by a colon.
pub open spec fn spec_playthrough(names: Seq<Seq<char>>, s: Seq<char>) -> Option<
    Seq<Seq<EntryView>>,
> {
    let j = spec_find_from(s, 0, playthrough_keyword());
    let b = skip_ws(s, j + 11);
    if has_prefix_at(s, j, playthrough_keyword()) && b < s.len() && s[b] == ':' {
        Some(spec_spheres_from(names, s, skip_ws(s, b + 1)))
    } else {
        None
    }
}

// ---------------------------------------------------------------------------
// The seed
// ---------------------------------------------------------------------------

/// `Seed: `
pub open spec fn seed_keyword() -> Seq<char> {
    seq!['S', 'e', 'e', 'd', ':', ' ']
}

/// The seed of a spoiler log: the digits that follow the first `Seed: `.
/// `None` when `Seed: ` does not occur or no digit follows it.
pub open spec fn spec_seed(s: Seq<char>) -> Option<Seq<char>> {
    let j = spec_find_from(s, 0, seed_keyword());
    let e = run_end(s, j + 6, digit_pred());
    if has_prefix_at(s, j, seed_keyword()) && e > j + 6 {
        Some(s.subrange(j + 6, e))
    } else {
        None
    }
}

// ---------------------------------------------------------------------------
// What every parse yields
// ---------------------------------------------------------------------------

/// An ASCII identifier, as slot names are.
pub open spec fn is_identifier(n: Seq<char>) -> bool {
    &&& n.len() > 0
    &&& is_ident_start(n[0])
    &&& forall|k: int| 0 <= k < n.len() ==> is_ident_char(#[trigger] n[k])
}

/// An entry of a playthrough read with the slots `names`: its receiver is one
/// of the slots, and so is its sender unless the server hands the item out at
/// the start.
pub open spec fn entry_names_slots(names: Seq<Seq<char>>, e: EntryView) -> bool {
    &&& names.contains(e.receiver)
    &&& names.contains(e.sender) || (e.sender == archipelago_name() && e.location
        == server_name())
}

pub proof fn lemma_slots_from_identifiers(s: Seq<char>, i: int)
    requires
        0 <= i <= s.len(),
    ensures
        forall|k: int|
            0 <= k < spec_slots_from(s, i).len() ==> is_identifier(
                #[trigger] spec_slots_from(s, i)[k],
            ),
    decreases s.len() - i,
{
    if i < s.len() {
        match spec_slot_at(s, i) {
            Some((n, f)) => {
                lemma_slot_at_bounds(s, i);
                lemma_slots_from_identifiers(s, f);
                let a = skip_ws(s, i);
                lemma_run_end(s, i, ws_pred());
                let c = run_end(s, a + 7, digit_pred());
                lemma_run_end(s, a + 7, digit_pred());
                let e = skip_ws(s, c + 1);
                lemma_run_end(s, c + 1, ws_pred());
                lemma_run_end(s, e + 1, ident_pred());
                assert(is_identifier(n)) by {
                    assert(n[0] == s[e]);
                    assert forall|k: int| 0 <= k < n.len() implies is_ident_char(#[trigger] n[k]) by {
                        assert(n[k] == s[e + k]);
                        if k > 0 {
                            assert(ident_pred()(s[e + k]));
                        }
                    }
                }
                let rest = spec_slots_from(s, f);
                assert(spec_slots_from(s, i) == seq![n] + rest);
                assert forall|k: int|
                    0 <= k < spec_slots_from(s, i).len() implies is_identifier(
                    #[trigger] spec_slots_from(s, i)[k],
                ) by {
                    if k > 0 {
                        assert(spec_slots_from(s, i)[k] == rest[k - 1]);
                    }
                }
            },
            None => {
                lemma_slots_from_identifiers(s, i + 1);
                assert(spec_slots_from(s, i) == spec_slots_from(s, i + 1));
            },
        }
    }
}

/// Every slot read from a spoiler log is named by an ASCII identifier.
pub proof fn lemma_slots_are_identifiers(s: Seq<char>)
    ensures
        forall|k: int| 0 <= k < spec_slots(s).len() ==> is_identifier(#[trigger] spec_slots(s)[k]),
{
    lemma_slots_from_identifiers(s, 0);
}

pub proof fn lemma_check_names_slots(names: Seq<Seq<char>>, s: Seq<char>, i: int)
    ensures
        spec_check_at(names, s, i) matches Some((e, n)) ==> entry_names_slots(names, e),
{
    lemma_object_bounds(names, s, skip_ws(s, i));
    lemma_object_bounds(names, s, i);
    if let Some((send, b)) = spec_object_at(names, s, skip_ws(s, i)) {
        let c = skip_ws(s, b);
        lemma_object_bounds(names, s, skip_ws(s, c + 1));
    }
}

pub proof fn lemma_entries_name_slots(names: Seq<Seq<char>>, s: Seq<char>, j: int)
    ensures
        forall|k: int|
            0 <= k < spec_entries_from(names, s, j).0.len() ==> entry_names_slots(
                names,
                #[trigger] spec_entries_from(names, s, j).0[k],
            ),
    decreases s.len() - j,
{
    if let Some((e, b)) = spec_check_at(names, s, skip_ws(s, j)) {
        lemma_check_bounds(names, s, skip_ws(s, j));
        if 0 <= j <= s.len() {
            lemma_run_end(s, j, ws_pred());
        }
        lemma_run_end(s, b, ws_pred());
        lemma_check_names_slots(names, s, skip_ws(s, j));
        lemma_entries_name_slots(names, s, skip_ws(s, b));
        let rest = spec_entries_from(names, s, skip_ws(s, b)).0;
        assert forall|k: int|
            0 <= k < spec_entries_from(names, s, j).0.len() implies entry_names_slots(
            names,
            #[trigger] spec_entries_from(names, s, j).0[k],
        ) by {
            if k > 0 {
                assert(spec_entries_from(names, s, j).0[k] == rest[k - 1]);
            }
        }
    }
}

pub proof fn lemma_spheres_name_slots(names: Seq<Seq<char>>, s: Seq<char>, j: int)
    ensures
        forall|k: int, x: int|
            0 <= k < spec_spheres_from(names, s, j).len() && 0 <= x < spec_spheres_from(
                names,
                s,
                j,
            )[k].len() ==> entry_names_slots(names, #[trigger] spec_spheres_from(names, s, j)[k][x]),
    decreases s.len() - j,
{
    if let Some((v, e)) = spec_sphere_at(names, s, j) {
        lemma_sphere_bounds(names, s, j);
        lemma_run_end(s, e, newline_pred());
        let next = run_end(s, e, newline_pred());
        lemma_spheres_name_slots(names, s, next);
        let a = skip_ws(s, j);
        let b = spec_number_end(s, a);
        let c = skip_ws(s, b + 1);
        lemma_entries_name_slots(names, s, c + 1);
        let rest = spec_spheres_from(names, s, next);
        assert forall|k: int, x: int|
            0 <= k < spec_spheres_from(names, s, j).len() && 0 <= x < spec_spheres_from(
                names,
                s,
                j,
            )[k].len() implies entry_names_slots(
            names,
            #[trigger] spec_spheres_from(names, s, j)[k][x],
        ) by {
            if k > 0 {
                assert(spec_spheres_from(names, s, j)[k] == rest[k - 1]);
            }
        }
    }
}

/// Every entry of a playthrough names the slots it was read with: its
/// receiver is one of them, and so is its sender unless the entry is an item
/// that the server hands out at the start (location `Server`, sender
/// `Archipelago`).
pub proof fn lemma_playthrough_names_slots(names: Seq<Seq<char>>, s: Seq<char>)
    ensures
        spec_playthrough(names, s) matches Some(p) ==> forall|k: int, x: int|
            0 <= k < p.len() && 0 <= x < p[k].len() ==> entry_names_slots(names, #[trigger] p[k][x]),
{
    let j = spec_find_from(s, 0, playthrough_keyword());
    let b = skip_ws(s, j + 11);
    lemma_spheres_name_slots(names, s, skip_ws(s, b + 1));
}

// ---------------------------------------------------------------------------
// Executable parsers
// ---------------------------------------------------------------------------

fn player_keyword_chars() -> (r: Vec<char>)
    ensures
        r@ == player_keyword(),
{
    vec!['P', 'l', 'a', 'y', 'e', 'r', ' ']
}

/// Where the name of the slot line at `i` stands, if one starts there.
fn slot_at(s: &Vec<char>, i: usize, keyword: &Vec<char>) -> (r: Option<(usize, usize)>)
    requires
        i <= s.len(),
        keyword@ == player_keyword(),
    ensures
        match r {
            Some((e, f)) => e <= f <= s.len() && spec_slot_at(s@, i as int) == Some(
                (s@.subrange(e as int, f as int), f as int),
            ),
            None => spec_slot_at(s@, i as int) is None,
        },
{
    let a = skip_whitespace(s, i);
    if !lit_at(s, a, keyword) {
        return None;
    }
    let c = skip_digits(s, a + 7);
    if c >= s.len() || s[c] != ':' {
        return None;
    }
    let e = skip_whitespace(s, c + 1);
    if e >= s.len() || !is_ascii_ident_start(s[e]) {
        return None;
    }
    let f = skip_ident_chars(s, e + 1);
    Some((e, f))
}

fn scan_slots(s: &Vec<char>) -> (r: Vec<Slot>)
    ensures
        r.deep_view() == spec_slots(s@),
{
    let keyword = player_keyword_chars();
    let mut r: Vec<Slot> = Vec::new();
    let mut i: usize = 0;
    while i < s.len()
        invariant
            i <= s.len(),
            keyword@ == player_keyword(),
            r.deep_view() + spec_slots_from(s@, i as int) == spec_slots(s@),
        decreases s.len() - i,
    {
        let ghost old_r = r.deep_view();
        match slot_at(s, i, &keyword) {
            Some((e, f)) => {
                proof {
                    lemma_slot_at_bounds(s@, i as int);
                }
                r.push(Slot { player: string_of(s, e, f) });
                assert(r.deep_view() =~= old_r.push(s@.subrange(e as int, f as int)));
                assert(r.deep_view() + spec_slots_from(s@, f as int) =~= old_r
                    + spec_slots_from(s@, i as int));
                i = f;
            },
            None => {
                i += 1;
            },
        }
    }
    assert(r.deep_view() + spec_slots_from(s@, i as int) =~= r.deep_view());
    r
}

/// Parses one slot line that makes up the whole of `input`.
pub fn slot_parser(input: &str) -> (r: Option<Slot>)
    ensures
        match spec_slot_at(input@, 0) {
            Some((n, f)) => if f == input@.len() {
                r matches Some(slot) && slot@ == n
            } else {
                r is None
            },
            None => r is None,
        },
{
    let s = chars_of(input);
    let keyword = player_keyword_chars();
    match slot_at(&s, 0, &keyword) {
        Some((e, f)) => {
            if f == s.len() {
                Some(Slot { player: string_of(&s, e, f) })
            } else {
                None
            }
        },
        None => None,
    }
}

/// The slots named by the slot lines of `input`, in order; text between them
/// is skipped.
pub fn slots_parser(input: &str) -> (r: Vec<Slot>)
    ensures
        r.deep_view() == spec_slots(input@),
{
    let s = chars_of(input);
    scan_slots(&s)
}

/// The characters of each slot's name.
fn slot_name_chars(slots: &Vec<Slot>) -> (r: Vec<Vec<char>>)
    ensures
        r.deep_view() == slots.deep_view(),
{
    let mut r: Vec<Vec<char>> = Vec::new();
    let mut k: usize = 0;
    while k < slots.len()
        invariant
            k <= slots.len(),
            r.deep_view() == slots.deep_view().take(k as int),
        decreases slots.len() - k,
    {
        let name = chars_of(slots[k].player.as_str());
        assert(name.deep_view() =~= slots.deep_view()[k as int]);
        let ghost old_r = r.deep_view();
        let ghost name_v = name.deep_view();
        r.push(name);
        assert(r.deep_view() =~= old_r.push(name_v));
        k += 1;
        assert(r.deep_view() =~= slots.deep_view().take(k as int));
    }
    assert(slots.deep_view().take(k as int) =~= slots.deep_view());
    r
}

/// The first known slot whose name occurs at `i`, and where the name ends.
fn existing_slot_at(names: &Vec<Vec<char>>, s: &Vec<char>, i: usize) -> (r: Option<(usize, usize)>)
    requires
        i <= s.len(),
    ensures
        match r {
            Some((k, e)) => e <= s.len() && spec_existing_slot_at(names.deep_view(), s@, i as int)
                == Some((k as int, e as int)),
            None => spec_existing_slot_at(names.deep_view(), s@, i as int) is None,
        },
{
    let ghost nv = names.deep_view();
    let mut k: usize = 0;
    while k < names.len()
        invariant
            k <= names.len(),
            i <= s.len(),
            nv == names.deep_view(),
            spec_pick_slot(nv, s@, i as int, k as int) == spec_pick_slot(nv, s@, i as int, 0),
        decreases names.len() - k,
    {
        assert(nv[k as int] == names[k as int]@);
        if lit_at(s, i, &names[k]) {
            return Some((k, i + names[k].len()));
        }
        k += 1;
    }
    None
}

/// A known slot's name in brackets at `j`: the slot's index and the end.
fn slot_ref_at(names: &Vec<Vec<char>>, s: &Vec<char>, j: usize) -> (r: Option<(usize, usize)>)
    requires
        j <= s.len(),
    ensures
        match r {
            Some((k, n)) => n <= s.len() && spec_slot_ref_at(names.deep_view(), s@, j as int)
                == Some((k as int, n as int)),
            None => spec_slot_ref_at(names.deep_view(), s@, j as int) is None,
        },
{
    if j >= s.len() || s[j] != '(' {
        return None;
    }
    match existing_slot_at(names, s, j + 1) {
        Some((k, e)) => {
            if e < s.len() && s[e] == ')' {
                Some((k, e + 1))
            } else {
                None
            }
        },
        None => None,
    }
}

/// Where the text of an object that starts at `i` stops.
fn location_end(names: &Vec<Vec<char>>, s: &Vec<char>, i: usize) -> (r: usize)
    requires
        i <= s.len(),
    ensures
        r == spec_location_end(names.deep_view(), s@, i as int),
        i <= r <= s.len(),
{
    let ghost nv = names.deep_view();
    let mut j = i;
    while j < s.len() && s[j] != '{' && s[j] != '}' && slot_ref_at(names, s, j).is_none()
        invariant
            i <= j <= s.len(),
            nv == names.deep_view(),
            spec_location_end(nv, s@, j as int) == spec_location_end(nv, s@, i as int),
        decreases s.len() - j,
    {
        j += 1;
    }
    j
}

/// An object at `i`: where its trimmed text stands, its slot's index, and the
/// position after it.
fn object_at(names: &Vec<Vec<char>>, s: &Vec<char>, i: usize) -> (r: Option<
    (usize, usize, usize, usize),
>)
    requires
        i <= s.len(),
    ensures
        match r {
            Some((a, b, k, n)) => a <= b <= s.len() && k < names.len() && n <= s.len()
                && spec_object_at(names.deep_view(), s@, i as int) == Some(
                (
                    ObjectView {
                        object: s@.subrange(a as int, b as int),
                        player: names.deep_view()[k as int],
                    },
                    n as int,
                ),
            ),
            None => spec_object_at(names.deep_view(), s@, i as int) is None,
        },
{
    let m = location_end(names, s, i);
    match slot_ref_at(names, s, m) {
        Some((k, n)) => {
            proof {
                lemma_slot_ref_bounds(names.deep_view(), s@, m as int);
            }
            let (a, b) = trim_range(s, i, m);
            Some((a, b, k, n))
        },
        None => None,
    }
}

/// The text of an object as a [`Thingymabob`], its player taken from `slots`.
fn make_object(slots: &Vec<Slot>, s: &Vec<char>, a: usize, b: usize, k: usize) -> (r: Thingymabob)
    requires
        a <= b <= s.len(),
        k < slots.len(),
    ensures
        r@ == (ObjectView { object: s@.subrange(a as int, b as int), player: slots@[k as int]@ }),
{
    Thingymabob { object: string_of(s, a, b), player: slots[k].player.clone() }
}

/// Parses the name of one of `slots` that makes up the whole of `input`; the
/// first slot of the list whose name fits is taken.
pub fn parse_from_existing_slot(slots: &Vec<Slot>, input: &str) -> (r: Option<Slot>)
    ensures
        match spec_existing_slot_at(slots.deep_view(), input@, 0) {
            Some((k, e)) => if e == input@.len() {
                r matches Some(slot) && slot@ == slots@[k]@
            } else {
                r is None
            },
            None => r is None,
        },
{
    let s = chars_of(input);
    let names = slot_name_chars(slots);
    match existing_slot_at(&names, &s, 0) {
        Some((k, e)) => {
            if e == s.len() {
                proof {
                    lemma_pick_slot(names.deep_view(), s@, 0, 0);
                }
                Some(slots[k].duplicate())
            } else {
                None
            }
        },
        None => None,
    }
}

/// Parses one object that makes up the whole of `input`: text followed by one
/// of `slots` in brackets, such as `Location (sub-location) (slot1)`.
pub fn object_parser(slots: &Vec<Slot>, input: &str) -> (r: Option<Thingymabob>)
    ensures
        match spec_object_at(slots.deep_view(), input@, 0) {
            Some((o, n)) => if n == input@.len() {
                r matches Some(obj) && obj@ == o
            } else {
                r is None
            },
            None => r is None,
        },
{
    let s = chars_of(input);
    let names = slot_name_chars(slots);
    match object_at(&names, &s, 0) {
        Some((a, b, k, n)) => {
            if n == s.len() {
                Some(make_object(slots, &s, a, b, k))
            } else {
                None
            }
        },
        None => None,
    }
}

fn text_of(chars: Vec<char>) -> (r: String)
    ensures
        r@ == chars@,
{
    let r = string_of(&chars, 0, chars.len());
    assert(chars@.subrange(0, chars@.len() as int) =~= chars@);
    r
}

/// `Server`
fn server_string() -> (r: String)
    ensures
        r@ == server_name(),
{
    text_of(vec!['S', 'e', 'r', 'v', 'e', 'r'])
}

/// `Archipelago`
fn archipelago_string() -> (r: String)
    ensures
        r@ == archipelago_name(),
{
    text_of(vec!['A', 'r', 'c', 'h', 'i', 'p', 'e', 'l', 'a', 'g', 'o'])
}

/// A playthrough line at `i`, and the position after it.
fn check_at(slots: &Vec<Slot>, names: &Vec<Vec<char>>, s: &Vec<char>, i: usize) -> (r: Option<
    (SpoilerEntry, usize),
>)
    requires
        i <= s.len(),
        names.deep_view() == slots.deep_view(),
    ensures
        match r {
            Some((e, n)) => n <= s.len() && spec_check_at(slots.deep_view(), s@, i as int) == Some(
                (e@, n as int),
            ),
            None => spec_check_at(slots.deep_view(), s@, i as int) is None,
        },
{
    let a = skip_whitespace(s, i);
    if let Some((la, lb, k1, b)) = object_at(names, s, a) {
        let c = skip_whitespace(s, b);
        if c < s.len() && s[c] == ':' {
            let d = skip_whitespace(s, c + 1);
            if let Some((ia, ib, k2, f)) = object_at(names, s, d) {
                let entry = SpoilerEntry {
                    location: string_of(s, la, lb),
                    item: string_of(s, ia, ib),
                    sender: slots[k1].player.clone(),
                    receiver: slots[k2].player.clone(),
                };
                return Some((entry, f));
            }
        }
    }
    match object_at(names, s, i) {
        Some((ia, ib, k, f)) => {
            let entry = SpoilerEntry {
                location: server_string(),
                item: string_of(s, ia, ib),
                sender: archipelago_string(),
                receiver: slots[k].player.clone(),
            };
            Some((entry, f))
        },
        None => None,
    }
}

/// The lines of a sphere from `j`, and where they stop.
fn entries_from(slots: &Vec<Slot>, names: &Vec<Vec<char>>, s: &Vec<char>, j: usize) -> (r: (
    Vec<SpoilerEntry>,
    usize,
))
    requires
        j <= s.len(),
        names.deep_view() == slots.deep_view(),
    ensures
        r.0.deep_view() == spec_entries_from(slots.deep_view(), s@, j as int).0,
        r.1 == spec_entries_from(slots.deep_view(), s@, j as int).1,
        r.1 <= s.len(),
{
    let ghost nv = slots.deep_view();
    let mut out: Vec<SpoilerEntry> = Vec::new();
    let mut p = j;
    loop
        invariant
            j <= p <= s.len(),
            names.deep_view() == nv,
            nv == slots.deep_view(),
            out.deep_view() + spec_entries_from(nv, s@, p as int).0 == spec_entries_from(
                nv,
                s@,
                j as int,
            ).0,
            spec_entries_from(nv, s@, p as int).1 == spec_entries_from(nv, s@, j as int).1,
        decreases s.len() - p,
    {
        let a = skip_whitespace(s, p);
        match check_at(slots, names, s, a) {
            Some((e, b)) => {
                proof {
                    lemma_check_bounds(nv, s@, a as int);
                }
                let ghost old_out = out.deep_view();
                let ghost ev = e@;
                out.push(e);
                let q = skip_whitespace(s, b);
                assert(out.deep_view() =~= old_out.push(ev));
                assert(out.deep_view() + spec_entries_from(nv, s@, q as int).0 =~= old_out
                    + spec_entries_from(nv, s@, p as int).0);
                p = q;
            },
            None => {
                assert(out.deep_view() + spec_entries_from(nv, s@, p as int).0 =~= out.deep_view());
                return (out, p);
            },
        }
    }
}

/// A sphere at `i`, and the position after it.
fn sphere_at(slots: &Vec<Slot>, names: &Vec<Vec<char>>, s: &Vec<char>, i: usize) -> (r: Option<
    (Vec<SpoilerEntry>, usize),
>)
    requires
        i <= s.len(),
        names.deep_view() == slots.deep_view(),
    ensures
        match r {
            Some((v, n)) => n <= s.len() && spec_sphere_at(slots.deep_view(), s@, i as int)
                == Some((v.deep_view(), n as int)),
            None => spec_sphere_at(slots.deep_view(), s@, i as int) is None,
        },
{
    let a = skip_whitespace(s, i);
    if a >= s.len() || !is_ascii_digit(s[a]) {
        return None;
    }
    let b = if s[a] == '0' {
        a + 1
    } else {
        skip_digits(s, a + 1)
    };
    if b >= s.len() || s[b] != ':' {
        return None;
    }
    let c = skip_whitespace(s, b + 1);
    if c >= s.len() || s[c] != '{' {
        return None;
    }
    let (entries, r) = entries_from(slots, names, s, c + 1);
    if r < s.len() && s[r] == '}' {
        Some((entries, r + 1))
    } else {
        None
    }
}

fn playthrough_keyword_chars() -> (r: Vec<char>)
    ensures
        r@ == playthrough_keyword(),
{
    vec!['P', 'l', 'a', 'y', 't', 'h', 'r', 'o', 'u', 'g', 'h']
}

/// The first position at or after `i` where `lit` occurs, or the end.
fn find_from(s: &Vec<char>, i: usize, lit: &Vec<char>) -> (r: usize)
    requires
        i <= s.len(),
    ensures
        r == spec_find_from(s@, i as int, lit@),
        i <= r <= s.len(),
{
    let mut j = i;
    while j < s.len() && !lit_at(s, j, lit)
        invariant
            i <= j <= s.len(),
            spec_find_from(s@, j as int, lit@) == spec_find_from(s@, i as int, lit@),
        decreases s.len() - j,
    {
        j += 1;
    }
    j
}

/// The playthrough of the text `s`, given its slots.
fn playthrough_of(slots: &Vec<Slot>, s: &Vec<char>) -> (r: Option<Vec<Vec<SpoilerEntry>>>)
    ensures
        match r {
            Some(p) => spec_playthrough(slots.deep_view(), s@) == Some(p.deep_view()),
            None => spec_playthrough(slots.deep_view(), s@) is None,
        },
{
    let ghost nv = slots.deep_view();
    let names = slot_name_chars(slots);
    let keyword = playthrough_keyword_chars();
    let j = find_from(s, 0, &keyword);
    if !lit_at(s, j, &keyword) {
        return None;
    }
    let b = skip_whitespace(s, j + 11);
    if b >= s.len() || s[b] != ':' {
        return None;
    }
    let start = skip_whitespace(s, b + 1);
    assert(spec_playthrough(nv, s@) == Some(spec_spheres_from(nv, s@, start as int)));
    let mut p = start;
    let mut out: Vec<Vec<SpoilerEntry>> = Vec::new();
    loop
        invariant
            p <= s.len(),
            names.deep_view() == nv,
            nv == slots.deep_view(),
            spec_playthrough(nv, s@) == Some(spec_spheres_from(nv, s@, start as int)),
            out.deep_view() + spec_spheres_from(nv, s@, p as int) == spec_spheres_from(
                nv,
                s@,
                start as int,
            ),
        decreases s.len() - p,
    {
        match sphere_at(slots, &names, s, p) {
            Some((v, e)) => {
                proof {
                    lemma_sphere_bounds(nv, s@, p as int);
                }
                let ghost old_out = out.deep_view();
                let ghost vv = v.deep_view();
                out.push(v);
                let q = skip_newlines(s, e);
                assert(out.deep_view() =~= old_out.push(vv));
                assert(out.deep_view() + spec_spheres_from(nv, s@, q as int) =~= old_out
                    + spec_spheres_from(nv, s@, p as int));
                p = q;
            },
            None => {
                assert(out.deep_view() + spec_spheres_from(nv, s@, p as int) =~= out.deep_view());
                return Some(out);
            },
        }
    }
}

/// Parses one playthrough line that makes up the whole of `input`: either
/// `location (sender): item (receiver)` or, for an item handed out by the
/// server, `item (receiver)`.
pub fn check_parser(slots: &Vec<Slot>, input: &str) -> (r: Option<SpoilerEntry>)
    ensures
        match spec_check_at(slots.deep_view(), input@, 0) {
            Some((e, n)) => if n == input@.len() {
                r matches Some(entry) && entry@ == e
            } else {
                r is None
            },
            None => r is None,
        },
{
    let s = chars_of(input);
    let names = slot_name_chars(slots);
    match check_at(slots, &names, &s, 0) {
        Some((e, n)) => {
            if n == s.len() {
                Some(e)
            } else {
                None
            }
        },
        None => None,
    }
}

/// Parses one sphere that makes up the whole of `input`, such as
/// `1: { loc (slot1): item (slot2) }`.
pub fn sphere_parser(slots: &Vec<Slot>, input: &str) -> (r: Option<Vec<SpoilerEntry>>)
    ensures
        match spec_whole_sphere(slots.deep_view(), input@) {
            Some(v) => r matches Some(sphere) && sphere.deep_view() == v,
            None => r is None,
        },
{
    let s = chars_of(input);
    let names = slot_name_chars(slots);
    match sphere_at(slots, &names, &s, 0) {
        Some((v, n)) => {
            if n == s.len() {
                Some(v)
            } else {
                None
            }
        },
        None => None,
    }
}

/// Parses the playthrough of a spoiler log, whose lines name `slots`.
pub fn playthrough_parser(slots: &Vec<Slot>, input: &str) -> (r: Option<Vec<Vec<SpoilerEntry>>>)
    ensures
        match r {
            Some(p) => spec_playthrough(slots.deep_view(), input@) == Some(p.deep_view()),
            None => spec_playthrough(slots.deep_view(), input@) is None,
        },
{
    let s = chars_of(input);
    playthrough_of(slots, &s)
}

/// Parses a spoiler log into its slots and its playthrough. The log must
/// hold a playthrough.
pub fn parse_spoiler(input: &String) -> (r: (Vec<Slot>, Vec<Vec<SpoilerEntry>>))
    requires
        spec_playthrough(spec_slots(input@), input@) is Some,
    ensures
        r.0.deep_view() == spec_slots(input@),
        Some(r.1.deep_view()) == spec_playthrough(spec_slots(input@), input@),
{
    let s = chars_of(input.as_str());
    let slots = scan_slots(&s);
    match playthrough_of(&slots, &s) {
        Some(p) => (slots, p),
        None => (slots, Vec::new()),
    }
}

fn seed_keyword_chars() -> (r: Vec<char>)
    ensures
        r@ == seed_keyword(),
{
    vec!['S', 'e', 'e', 'd', ':', ' ']
}

/// The seed of a spoiler log: the digits after the first `Seed: `.
pub fn seed_from_spoiler(input: &str) -> (r: Option<String>)
    ensures
        match spec_seed(input@) {
            Some(seed) => r matches Some(t) && t@ == seed,
            None => r is None,
        },
{
    let s = chars_of(input);
    let keyword = seed_keyword_chars();
    let j = find_from(&s, 0, &keyword);
    if !lit_at(&s, j, &keyword) {
        return None;
    }
    let e = skip_digits(&s, j + 6);
    if e > j + 6 {
        Some(string_of(&s, j + 6, e))
    } else {
        None
    }
}

} // verus!
