//! The operations every ROM dumper offers, and selection of a chip by name.

use vstd::prelude::*;

verus! {

/// What a chip descriptor is, mathematically: its display name and its
/// protocol key.
pub type ChipView = (Seq<char>, Seq<char>);

/// A chip model that a dumper can read.
#[derive(Clone, Debug)]
pub struct ChipDesc {
    pub name: String,
    pub key: String,
}

impl View for ChipDesc {
    type V = ChipView;

    open spec fn view(&self) -> ChipView {
        (self.name@, self.key@)
    }
}

impl ChipDesc {
    /// A copy whose fields hold the same text.
    pub fn duplicate(&self) -> (r: ChipDesc)
        ensures
            r@ == self@,
    {
        ChipDesc { name: self.name.clone(), key: self.key.clone() }
    }
}

/// Why a dumper operation failed.
#[derive(Debug)]
pub enum DumperError {
    /// More than one supported chip starts with the requested name; holds
    /// how many do.
    AmbiguousSelection(usize),
    /// No supported chip starts with the requested name.
    NoMatchingChip,
    /// The device did not confirm a selection: its raw reply and the name of
    /// the chip that was asked for.
    ProtocolMismatch { response: Vec<u8>, chip: String },
    /// The channel to the device failed.
    ChannelIoError,
    /// The block transfer of a chip's contents failed.
    TransferFailed,
}

/// The views of a list of chips.
pub open spec fn chips_view(v: Seq<ChipDesc>) -> Seq<ChipView> {
    v.map_values(|c: ChipDesc| c@)
}

/// The view of an optional chip.
pub open spec fn opt_view(c: Option<ChipDesc>) -> Option<ChipView> {
    match c {
        Some(c) => Some(c@),
        None => None,
    }
}

/// `sent` is `before` with `n` requests added at its end.
pub open spec fn sends(before: Seq<Seq<u8>>, after: Seq<Seq<u8>>, n: nat) -> bool {
    after.len() == before.len() + n && after.subrange(0, before.len() as int) == before
}

/// A hardware (or software) ROM dumper.
///
/// `listed` and `selection` are the supported chips and the selected chip
/// that the dumper read last, and `listing_ok` whether that last reading
/// succeeded. `requests` are the chips whose selection it has been asked
/// for, in order, and `select_outcome` the outcome of the last such request.
/// `sent` are the requests written to the device, in order, and
/// `list_command` the request that asks it for its chips.
pub trait Dumper {
    spec fn listed(&self) -> Seq<ChipView>;

    spec fn selection(&self) -> Option<ChipView>;

    spec fn listing_ok(&self) -> bool;

    spec fn requests(&self) -> Seq<ChipView>;

    spec fn select_outcome(&self) -> Result<(), DumperError>;

    spec fn sent(&self) -> Seq<Seq<u8>>;

    spec fn list_command() -> Seq<u8>;

    /// Whether the device answers as expected; `false` is no failure. One
    /// request is written.
    fn is_present(&mut self) -> (r: Result<bool, DumperError>)
        ensures
            r is Err ==> r == Err::<bool, DumperError>(DumperError::ChannelIoError),
            sends(old(self).sent(), final(self).sent(), 1),
            final(self).requests() == old(self).requests(),
            final(self).listed() == old(self).listed(),
            final(self).selection() == old(self).selection(),
            final(self).listing_ok() == old(self).listing_ok(),
            final(self).select_outcome() == old(self).select_outcome(),
    ;

    /// The chips that the device supports, in its order, read afresh with
    /// the listing request.
    fn list_supported(&mut self) -> (r: Result<Vec<ChipDesc>, DumperError>)
        ensures
            final(self).sent() == old(self).sent().push(Self::list_command()),
            final(self).requests() == old(self).requests(),
            final(self).select_outcome() == old(self).select_outcome(),
            r is Ok <==> final(self).listing_ok(),
            r matches Ok(v) ==> final(self).listed() == chips_view(v@),
            r is Err ==> r == Err::<Vec<ChipDesc>, DumperError>(DumperError::ChannelIoError),
            final(self).listing_ok() ==> (final(self).selection() matches Some(s) ==> final(self).listed().contains(s)),
    ;

    /// The chip that the device has selected, if any, read afresh with the
    /// listing request.
    fn selected_chip(&mut self) -> (r: Result<Option<ChipDesc>, DumperError>)
        ensures
            final(self).sent() == old(self).sent().push(Self::list_command()),
            final(self).requests() == old(self).requests(),
            final(self).select_outcome() == old(self).select_outcome(),
            r is Ok <==> final(self).listing_ok(),
            r matches Ok(c) ==> opt_view(c) == final(self).selection(),
            r is Err ==> r == Err::<Option<ChipDesc>, DumperError>(DumperError::ChannelIoError),
            final(self).listing_ok() ==> (final(self).selection() matches Some(s) ==> final(self).listed().contains(s)),
    ;

    /// Asks the device to select `chip`; one request is written.
    fn set_selected_chip(&mut self, chip: &ChipDesc) -> (r: Result<(), DumperError>)
        ensures
            sends(old(self).sent(), final(self).sent(), 1),
            final(self).requests() == old(self).requests().push(chip@),
            r == final(self).select_outcome(),
            final(self).listed() == old(self).listed(),
            final(self).listing_ok() == old(self).listing_ok(),
            r matches Err(e) ==> e == DumperError::ChannelIoError || e is ProtocolMismatch,
    ;

    /// Receives the selected chip's contents into `sink`; returns how many
    /// bytes came. Nothing is written to the device's line protocol.
    fn dump_chip(&mut self, sink: &mut Vec<u8>) -> (r: Result<usize, DumperError>)
        ensures
            r is Err ==> r == Err::<usize, DumperError>(DumperError::TransferFailed),
            final(self).sent() == old(self).sent(),
            final(self).requests() == old(self).requests(),
            final(self).listed() == old(self).listed(),
            final(self).selection() == old(self).selection(),
            final(self).listing_ok() == old(self).listing_ok(),
            final(self).select_outcome() == old(self).select_outcome(),
    ;

    /// Selects the one supported chip whose name starts with `name`. The
    /// list is read afresh, once; a failed reading fails with
    /// `ChannelIoError`. When no chip or more than one matches, nothing but
    /// the listing request is written and the error says which; when one
    /// does, exactly that chip is asked for, and the outcome is that
    /// request's.
    fn select_chip_by_name(&mut self, name: &str) -> (r: Result<(), DumperError>)
        ensures
            final(self).sent().len() > old(self).sent().len(),
            final(self).sent().subrange(0, old(self).sent().len() as int + 1) == old(self).sent().push(
                Self::list_command(),
            ),
            !final(self).listing_ok() ==> r == Err::<(), DumperError>(DumperError::ChannelIoError)
                && final(self).requests() == old(self).requests() && final(self).sent() == old(self).sent().push(Self::list_command()),
            final(self).listing_ok() ==> ({
                let m = matches_of(final(self).listed(), name@);
                &&& (m.len() == 0 ==> r == Err::<(), DumperError>(DumperError::NoMatchingChip)
                    && final(self).requests() == old(self).requests() && final(self).sent()
                    == old(self).sent().push(Self::list_command()))
                &&& (m.len() >= 2 ==> r == Err::<(), DumperError>(
                    DumperError::AmbiguousSelection(m.len() as usize),
                ) && final(self).requests() == old(self).requests() && final(self).sent()
                    == old(self).sent().push(Self::list_command()))
                &&& (m.len() == 1 ==> final(self).requests() == old(self).requests().push(m[0])
                    && r == final(self).select_outcome() && sends(old(self).sent(), final(self).sent(), 2))
            }),
            r matches Err(e) ==> e == DumperError::ChannelIoError || e is ProtocolMismatch
                || e == DumperError::NoMatchingChip || e is AmbiguousSelection,
    {
        let list = match self.list_supported() {
            Ok(list) => list,
            Err(e) => return Err(e),
        };
        let ghost after_list = self.sent();
        match choose_chip(&list, name) {
            Ok(chip) => {
                let r = self.set_selected_chip(&chip);
                assert(self.sent().subrange(0, old(self).sent().len() as int + 1) =~= after_list);
                assert(self.sent().subrange(0, old(self).sent().len() as int) =~= old(self).sent());
                r
            },
            Err(e) => Err(e),
        }
    }
}

/// Whether a chip's name starts with `prefix`.
pub open spec fn name_matches(c: ChipView, prefix: Seq<char>) -> bool {
    prefix.is_prefix_of(c.0)
}

/// The chips of `list` whose names start with `prefix`, in list order.
pub open spec fn matches_of(list: Seq<ChipView>, prefix: Seq<char>) -> Seq<ChipView>
    decreases list.len(),
{
    if list.len() == 0 {
        Seq::empty()
    } else {
        let m = matches_of(list.drop_last(), prefix);
        if name_matches(list.last(), prefix) {
            m.push(list.last())
        } else {
            m
        }
    }
}

/// Picks the one chip of `list` whose name starts with `prefix`. Fails with
/// `NoMatchingChip` when none does and with `AmbiguousSelection` when two or
/// more do, whatever their order.
pub fn choose_chip(list: &Vec<ChipDesc>, prefix: &str) -> (r: Result<ChipDesc, DumperError>)
    ensures
        ({
            let m = matches_of(chips_view(list@), prefix@);
            &&& (m.len() == 0 <==> r == Err::<ChipDesc, DumperError>(DumperError::NoMatchingChip))
            &&& (m.len() >= 2 <==> r == Err::<ChipDesc, DumperError>(
                DumperError::AmbiguousSelection(m.len() as usize),
            ))
            &&& (m.len() == 1 <==> r is Ok)
            &&& (r is Ok ==> r->Ok_0@ == m[0])
            &&& m.len() <= list@.len()
        }),
{
    let ghost views = list@.map_values(|c: ChipDesc| c@);
    let mut found: Option<ChipDesc> = None;
    let mut count: usize = 0;
    let mut i: usize = 0;
    while i < list.len()
        invariant
            i <= list.len(),
            views == list@.map_values(|c: ChipDesc| c@),
            count as nat == matches_of(views.take(i as int), prefix@).len(),
            count <= i,
            count >= 1 <==> found is Some,
            found matches Some(c) ==> c@ == matches_of(views.take(i as int), prefix@)[0],
        decreases list.len() - i,
    {
        let c = &list[i];
        assert(views.take(i + 1).drop_last() == views.take(i as int));
        assert(views.take(i + 1).last() == c@);
        if starts_with(&c.name, prefix) {
            if count == 0 {
                found = Some(c.duplicate());
            }
            count = count + 1;
        }
        i = i + 1;
    }
    assert(views.take(list.len() as int) == views);
    if count >= 2 {
        Err(DumperError::AmbiguousSelection(count))
    } else {
        match found {
            Some(c) => Ok(c),
            None => Err(DumperError::NoMatchingChip),
        }
    }
}

/// Whether `s` starts with `prefix`, compared character by character.
pub fn starts_with(s: &String, prefix: &str) -> (r: bool)
    ensures
        r == prefix@.is_prefix_of(s@),
{
    let t = s.as_str();
    let n = prefix.unicode_len();
    if n > t.unicode_len() {
        return false;
    }
    let mut i: usize = 0;
    while i < n
        invariant
            i <= n,
            t@ == s@,
            n == prefix@.len(),
            n <= s@.len(),
            forall|j: int| 0 <= j < i ==> prefix@[j] == s@[j],
        decreases n - i,
    {
        if prefix.get_char(i) != t.get_char(i) {
            assert(prefix@[i as int] != s@.subrange(0, n as int)[i as int]);
            return false;
        }
        i = i + 1;
    }
    assert(prefix@ =~= s@.subrange(0, n as int));
    true
}

/// A chip of `list` is among the matches of `prefix` exactly when its name
/// starts with `prefix`.
proof fn lemma_matches_contains(list: Seq<ChipView>, prefix: Seq<char>, c: ChipView)
    ensures
        matches_of(list, prefix).contains(c) <==> list.contains(c) && name_matches(c, prefix),
    decreases list.len(),
{
    if list.len() > 0 {
        let init = list.drop_last();
        lemma_matches_contains(init, prefix, c);
        assert(list == init.push(list.last()));
        if list.contains(c) && c != list.last() {
            let i = choose|i: int| 0 <= i < list.len() && list[i] == c;
            assert(init[i] == c);
        }
        if init.contains(c) {
            let i = choose|i: int| 0 <= i < init.len() && init[i] == c;
            assert(list[i] == c);
        }
        let m = matches_of(init, prefix);
        if name_matches(list.last(), prefix) {
            assert(m.push(list.last())[m.len() as int] == list.last());
            if m.contains(c) {
                let i = choose|i: int| 0 <= i < m.len() && m[i] == c;
                assert(m.push(list.last())[i] == c);
            }
            if m.push(list.last()).contains(c) && c != list.last() {
                let i = choose|i: int| 0 <= i < m.len() + 1 && m.push(list.last())[i] == c;
                assert(m[i] == c);
            }
        }
    }
}

/// When exactly one chip of `list` has a name that starts with `prefix`,
/// that chip is the one match, so selecting by `prefix` selects it and no
/// other.
pub proof fn lemma_single_match(list: Seq<ChipView>, prefix: Seq<char>, i: int)
    requires
        0 <= i < list.len(),
        name_matches(list[i], prefix),
        forall|j: int| 0 <= j < list.len() && j != i ==> !name_matches(#[trigger] list[j], prefix),
    ensures
        matches_of(list, prefix) == seq![list[i]],
    decreases list.len(),
{
    let init = list.drop_last();
    if i == list.len() - 1 {
        lemma_no_match(init, prefix);
    } else {
        assert forall|j: int| 0 <= j < init.len() && j != i implies !name_matches(
            #[trigger] init[j],
            prefix,
        ) by {
            assert(init[j] == list[j]);
        }
        lemma_single_match(init, prefix, i);
        assert(!name_matches(list[list.len() - 1], prefix));
    }
}

/// When no chip of `list` has a name that starts with `prefix`, there is no
/// match, so selecting by `prefix` fails with `NoMatchingChip` (or on the
/// channel) and asks the device for nothing.
pub proof fn lemma_no_match(list: Seq<ChipView>, prefix: Seq<char>)
    requires
        forall|j: int| 0 <= j < list.len() ==> !name_matches(#[trigger] list[j], prefix),
    ensures
        matches_of(list, prefix) == Seq::<ChipView>::empty(),
    decreases list.len(),
{
    if list.len() > 0 {
        let init = list.drop_last();
        assert forall|j: int| 0 <= j < init.len() implies !name_matches(#[trigger] init[j], prefix) by {
            assert(init[j] == list[j]);
        }
        lemma_no_match(init, prefix);
        assert(!name_matches(list[list.len() - 1], prefix));
    }
}

/// When two chips of `list` at different places have names that start with
/// `prefix`, there are two matches at least, so selecting by `prefix` fails
/// with `AmbiguousSelection` (or on the channel) and asks the device for
/// nothing.
pub proof fn lemma_shared_prefix(list: Seq<ChipView>, prefix: Seq<char>, i: int, j: int)
    requires
        0 <= i < j < list.len(),
        name_matches(list[i], prefix),
        name_matches(list[j], prefix),
    ensures
        matches_of(list, prefix).len() >= 2,
    decreases list.len(),
{
    let init = list.drop_last();
    assert(init[i] == list[i]);
    if j == list.len() - 1 {
        lemma_matches_contains(init, prefix, list[i]);
        assert(init.contains(list[i]));
        assert(matches_of(init, prefix).len() >= 1);
    } else {
        assert(init[j] == list[j]);
        lemma_shared_prefix(init, prefix, i, j);
    }
}

} // verus!
