//! The data model shared by the parser and the hint generator.
use vstd::prelude::*;
use vstd::std_specs::cmp::PartialEqSpec;

verus! {

/// A player slot of a multiworld, known by its name.
#[derive(Debug, Clone)]
pub struct Slot {
    pub player: String,
}

/// A location that a player has already checked on the server.
#[derive(Debug, Clone)]
pub struct Location {
    pub location: String,
    pub player: String,
}

/// One line of a playthrough: `sender`'s `location` holds `receiver`'s `item`.
#[derive(Debug, Clone)]
pub struct SpoilerEntry {
    pub location: String,
    pub item: String,
    pub sender: String,
    pub receiver: String,
}

/// Something to leave out when choosing a hint: a hint already given, or a
/// location already checked.
#[derive(Debug, Clone)]
pub enum Check {
    Spoiler(SpoilerEntry),
    Location(Location),
}

/// The mathematical content of a [`SpoilerEntry`].
pub struct EntryView {
    pub location: Seq<char>,
    pub item: Seq<char>,
    pub sender: Seq<char>,
    pub receiver: Seq<char>,
}

/// The mathematical content of a [`Location`].
pub struct LocationView {
    pub location: Seq<char>,
    pub player: Seq<char>,
}

pub enum CheckView {
    Spoiler(EntryView),
    Location(LocationView),
}

impl View for Slot {
    type V = Seq<char>;

    open spec fn view(&self) -> Seq<char> {
        self.player@
    }
}

impl DeepView for Slot {
    type V = Seq<char>;

    open spec fn deep_view(&self) -> Seq<char> {
        self.player@
    }
}

impl View for Location {
    type V = LocationView;

    open spec fn view(&self) -> LocationView {
        LocationView { location: self.location@, player: self.player@ }
    }
}

impl View for SpoilerEntry {
    type V = EntryView;

    open spec fn view(&self) -> EntryView {
        EntryView {
            location: self.location@,
            item: self.item@,
            sender: self.sender@,
            receiver: self.receiver@,
        }
    }
}

impl DeepView for SpoilerEntry {
    type V = EntryView;

    open spec fn deep_view(&self) -> EntryView {
        self@
    }
}

pub type Sphere = Vec<SpoilerEntry>;

pub type Playthrough = Vec<Sphere>;

impl DeepView for Location {
    type V = LocationView;

    open spec fn deep_view(&self) -> LocationView {
        self@
    }
}

impl DeepView for Check {
    type V = CheckView;

    open spec fn deep_view(&self) -> CheckView {
        self@
    }
}

impl View for Check {
    type V = CheckView;

    open spec fn view(&self) -> CheckView {
        match self {
            Check::Spoiler(e) => CheckView::Spoiler(e@),
            Check::Location(l) => CheckView::Location(l@),
        }
    }
}

/// A hint matches a checked location when both name the same location in the
/// same world (the location's player is the entry's sender).
pub open spec fn entry_matches_location(e: EntryView, l: LocationView) -> bool {
    e.location == l.location && e.sender == l.player
}

/// Whether a check stands for the playthrough entry `e`.
pub open spec fn check_matches_entry(c: CheckView, e: EntryView) -> bool {
    match c {
        CheckView::Spoiler(s) => s == e,
        CheckView::Location(l) => entry_matches_location(e, l),
    }
}

impl Slot {
    /// A field-by-field copy.
    pub fn duplicate(&self) -> (r: Slot)
        ensures
            r@ == self@,
    {
        Slot { player: self.player.clone() }
    }
}

impl SpoilerEntry {
    /// A field-by-field copy.
    pub fn duplicate(&self) -> (r: SpoilerEntry)
        ensures
            r@ == self@,
    {
        SpoilerEntry {
            location: self.location.clone(),
            item: self.item.clone(),
            sender: self.sender.clone(),
            receiver: self.receiver.clone(),
        }
    }
}

impl PartialEq for Slot {
    fn eq(&self, other: &Slot) -> (r: bool) {
        self.player == other.player
    }
}

impl vstd::std_specs::cmp::PartialEqSpecImpl for Slot {
    open spec fn obeys_eq_spec() -> bool {
        true
    }

    open spec fn eq_spec(&self, other: &Slot) -> bool {
        self@ == other@
    }
}

impl PartialEq for SpoilerEntry {
    fn eq(&self, other: &SpoilerEntry) -> (r: bool) {
        self.location == other.location && self.item == other.item && self.sender == other.sender
            && self.receiver == other.receiver
    }
}

impl vstd::std_specs::cmp::PartialEqSpecImpl for SpoilerEntry {
    open spec fn obeys_eq_spec() -> bool {
        true
    }

    open spec fn eq_spec(&self, other: &SpoilerEntry) -> bool {
        self@ == other@
    }
}

impl PartialEq for Location {
    fn eq(&self, other: &Location) -> (r: bool) {
        self.location == other.location && self.player == other.player
    }
}

impl vstd::std_specs::cmp::PartialEqSpecImpl for Location {
    open spec fn obeys_eq_spec() -> bool {
        true
    }

    open spec fn eq_spec(&self, other: &Location) -> bool {
        self@ == other@
    }
}

impl PartialEq for Check {
    fn eq(&self, other: &Check) -> (r: bool) {
        match (self, other) {
            (Check::Spoiler(a), Check::Spoiler(b)) => a == b,
            (Check::Location(a), Check::Location(b)) => a == b,
            _ => false,
        }
    }
}

impl vstd::std_specs::cmp::PartialEqSpecImpl for Check {
    open spec fn obeys_eq_spec() -> bool {
        true
    }

    open spec fn eq_spec(&self, other: &Check) -> bool {
        self@ == other@
    }
}

/// An entry equals a location when it names the same location in the same
/// sender's world.
impl PartialEq<Location> for SpoilerEntry {
    fn eq(&self, other: &Location) -> (r: bool) {
        self.location == other.location && self.sender == other.player
    }
}

impl vstd::std_specs::cmp::PartialEqSpecImpl<Location> for SpoilerEntry {
    open spec fn obeys_eq_spec() -> bool {
        true
    }

    open spec fn eq_spec(&self, other: &Location) -> bool {
        entry_matches_location(self@, other@)
    }
}

impl PartialEq<SpoilerEntry> for Location {
    fn eq(&self, other: &SpoilerEntry) -> (r: bool) {
        self.location == other.location && self.player == other.sender
    }
}

impl vstd::std_specs::cmp::PartialEqSpecImpl<SpoilerEntry> for Location {
    open spec fn obeys_eq_spec() -> bool {
        true
    }

    open spec fn eq_spec(&self, other: &SpoilerEntry) -> bool {
        entry_matches_location(other@, self@)
    }
}

impl PartialEq<Location> for Check {
    fn eq(&self, other: &Location) -> (r: bool) {
        match self {
            Check::Location(loc) => loc == other,
            Check::Spoiler(spoiler) => spoiler == other,
        }
    }
}

impl vstd::std_specs::cmp::PartialEqSpecImpl<Location> for Check {
    open spec fn obeys_eq_spec() -> bool {
        true
    }

    open spec fn eq_spec(&self, other: &Location) -> bool {
        match self@ {
            CheckView::Location(l) => l == other@,
            CheckView::Spoiler(e) => entry_matches_location(e, other@),
        }
    }
}

impl PartialEq<SpoilerEntry> for Check {
    fn eq(&self, other: &SpoilerEntry) -> (r: bool) {
        match self {
            Check::Location(loc) => loc == other,
            Check::Spoiler(spoiler) => spoiler == other,
        }
    }
}

impl vstd::std_specs::cmp::PartialEqSpecImpl<SpoilerEntry> for Check {
    open spec fn obeys_eq_spec() -> bool {
        true
    }

    open spec fn eq_spec(&self, other: &SpoilerEntry) -> bool {
        check_matches_entry(self@, other@)
    }
}

/// The index of the first name of `names` equal to `name`, if any: how a
/// location is found by its name among a player's locations.
pub fn find_by_name(names: &Vec<String>, name: &String) -> (r: Option<usize>)
    ensures
        match r {
            Some(k) => k < names.len() && names@[k as int]@ == name@ && forall|j: int|
                0 <= j < k ==> (#[trigger] names@[j])@ != name@,
            None => forall|j: int| 0 <= j < names.len() ==> (#[trigger] names@[j])@ != name@,
        },
{
    let mut k: usize = 0;
    while k < names.len()
        invariant
            k <= names.len(),
            forall|j: int| 0 <= j < k ==> (#[trigger] names@[j])@ != name@,
        decreases names.len() - k,
    {
        if names[k] == *name {
            return Some(k);
        }
        k += 1;
    }
    None
}

/// Comparing an entry with a location gives the same answer in both
/// directions.
pub proof fn lemma_entry_location_eq_symmetric(e: SpoilerEntry, l: Location)
    ensures
        e.eq_spec(&l) == l.eq_spec(&e),
{
}

/// An entry equals a checked location exactly when the two location names
/// are the same text and the location's player is the entry's sender: no
/// other pair of names compares equal, in either direction.
pub proof fn lemma_entry_location_match_exact(e: SpoilerEntry, l: Location)
    ensures
        e.eq_spec(&l) <==> (e.location@ == l.location@ && e.sender@ == l.player@),
        l.eq_spec(&e) <==> (e.location@ == l.location@ && e.sender@ == l.player@),
{
}

/// A check that stands for an entry also compares equal to it as a location
/// when it is one: the two comparisons of [`Check`] agree with those of its
/// variants.
pub proof fn lemma_check_eq_agrees(c: Check, e: SpoilerEntry)
    ensures
        c.eq_spec(&e) == match c {
            Check::Spoiler(s) => s.eq_spec(&e),
            Check::Location(l) => l.eq_spec(&e),
        },
{
}

} // verus!
