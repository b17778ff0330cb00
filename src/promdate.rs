//! The PROMdate dumper's line protocol: what is sent for each request, how
//! each reply is read, and a driver that speaks it over a [`Link`].

use crate::dumper::{chips_view, opt_view, ChipDesc, ChipView, Dumper, DumperError};
use crate::link::{Channel, Link};
use crate::text::{decode_text, is_space_char, is_u32, is_u32_text, is_white_space, trim, trim_text};
use vstd::prelude::*;
use vstd::slice::slice_to_vec;
use vstd::utf8::{decode_utf8, encode_utf8, valid_utf8};

verus! {

/// The byte that ends each line of the protocol.
pub const NEWLINE: u8 = 10;

/// The marker that starts the line of the chip currently selected.
pub open spec fn selected_marker() -> Seq<char> {
    seq!['*', '*', '*', ' ']
}

/// The name that a listing gives an empty slot.
pub open spec fn empty_slot() -> Seq<char> {
    seq!['N', 'O', 'N', 'E']
}

/// The first position at or after `i` that holds no white space, or the
/// length of `s` when there is none.
pub open spec fn skip_space(s: Seq<char>, i: int) -> int
    decreases s.len() - i,
{
    if i < 0 || i >= s.len() || !is_white_space(s[i]) {
        i
    } else {
        skip_space(s, i + 1)
    }
}

/// The first position at or after `i` that holds white space, or the length
/// of `s` when there is none.
pub open spec fn skip_field(s: Seq<char>, i: int) -> int
    decreases s.len() - i,
{
    if i < 0 || i >= s.len() || is_white_space(s[i]) {
        i
    } else {
        skip_field(s, i + 1)
    }
}

/// What one listing line describes: the chip's name, and whether the line
/// starts with the selection marker. After the marker, if any, the line must
/// hold exactly two fields apart by white space: a `u32` index, and a name
/// other than `NONE`.
pub open spec fn desc_of(s: Seq<char>) -> Option<(Seq<char>, bool)> {
    let flag = selected_marker().is_prefix_of(s);
    let body = if flag {
        s.skip(4)
    } else {
        s
    };
    fields_desc(body, flag)
}

/// What the text after the marker describes: exactly two fields apart by
/// white space, a `u32` index and a name other than `NONE`.
pub open spec fn fields_desc(body: Seq<char>, flag: bool) -> Option<(Seq<char>, bool)> {
    let a0 = skip_space(body, 0);
    let a1 = skip_field(body, a0);
    let b0 = skip_space(body, a1);
    let b1 = skip_field(body, b0);
    let name = body.subrange(b0, b1);
    if a0 < body.len() && b0 < body.len() && skip_space(body, b1) == body.len() && is_u32_text(
        body.subrange(a0, a1),
    ) && name != empty_slot() {
        Some((name, flag))
    } else {
        None
    }
}

/// Moves from `i` past white space in `s`.
fn next_field(s: &str, i: usize) -> (r: usize)
    requires
        i <= s@.len(),
    ensures
        r as int == skip_space(s@, i as int),
        i <= r <= s@.len(),
{
    let n = s.unicode_len();
    let mut k = i;
    while k < n && is_space_char(s.get_char(k))
        invariant
            i <= k <= n,
            n == s@.len(),
            skip_space(s@, k as int) == skip_space(s@, i as int),
        decreases n - k,
    {
        k = k + 1;
    }
    k
}

/// Moves from `i` to the end of the field that starts there.
fn field_end(s: &str, i: usize) -> (r: usize)
    requires
        i <= s@.len(),
    ensures
        r as int == skip_field(s@, i as int),
        i <= r <= s@.len(),
{
    let n = s.unicode_len();
    let mut k = i;
    while k < n && !is_space_char(s.get_char(k))
        invariant
            i <= k <= n,
            n == s@.len(),
            skip_field(s@, k as int) == skip_field(s@, i as int),
        decreases n - k,
    {
        k = k + 1;
    }
    k
}

/// Reads one listing line (without its line break) into a chip and whether
/// that chip is the one selected. The name doubles as the protocol key.
pub fn parse_desc(s: &str) -> (r: Option<(ChipDesc, bool)>)
    ensures
        match desc_of(s@) {
            None => r is None,
            Some((name, flag)) => r matches Some((c, f)) && c@ == (name, name) && f == flag,
        },
{
    let n = s.unicode_len();
    let flag = n >= 4 && s.get_char(0) == '*' && s.get_char(1) == '*' && s.get_char(2) == '*'
        && s.get_char(3) == ' ';
    proof {
        if flag {
            assert(selected_marker() =~= s@.subrange(0, 4));
        } else if n >= 4 {
            assert(s@.subrange(0, 4)[0] == s@[0] && s@.subrange(0, 4)[1] == s@[1]
                && s@.subrange(0, 4)[2] == s@[2] && s@.subrange(0, 4)[3] == s@[3]);
        }
    }
    let body = if flag {
        s.substring_char(4, n)
    } else {
        s.substring_char(0, n)
    };
    assert(body@ == if flag {
        s@.skip(4)
    } else {
        s@
    });
    let m = body.unicode_len();
    let a0 = next_field(body, 0);
    let a1 = field_end(body, a0);
    let b0 = next_field(body, a1);
    let b1 = field_end(body, b0);
    let e = next_field(body, b1);
    if a0 == m || b0 == m || e != m {
        return None;
    }
    let index = body.substring_char(a0, a1);
    if !is_u32(index) {
        return None;
    }
    let name = body.substring_char(b0, b1);
    if name.unicode_len() == 4 && name.get_char(0) == 'N' && name.get_char(1) == 'O'
        && name.get_char(2) == 'N' && name.get_char(3) == 'E' {
        assert(name@ =~= empty_slot());
        return None;
    }
    assert(name@ != empty_slot()) by {
        if name@.len() == 4 {
            assert(name@[0] != empty_slot()[0] || name@[1] != empty_slot()[1] || name@[2]
                != empty_slot()[2] || name@[3] != empty_slot()[3]);
        }
    }
    let chip = ChipDesc { name: name.to_owned(), key: name.to_owned() };
    Some((chip, flag))
}

/// `skip_space` stops at the first position from `i` on that holds no white
/// space.
proof fn lemma_skip_space(s: Seq<char>, i: int, j: int)
    requires
        0 <= i <= j <= s.len(),
        forall|k: int| i <= k < j ==> is_white_space(#[trigger] s[k]),
        j == s.len() || !is_white_space(s[j]),
    ensures
        skip_space(s, i) == j,
    decreases j - i,
{
    if i < j {
        lemma_skip_space(s, i + 1, j);
    }
}

/// `skip_field` stops at the first position from `i` on that holds white
/// space.
proof fn lemma_skip_field(s: Seq<char>, i: int, j: int)
    requires
        0 <= i <= j <= s.len(),
        forall|k: int| i <= k < j ==> !is_white_space(#[trigger] s[k]),
        j == s.len() || is_white_space(s[j]),
    ensures
        skip_field(s, i) == j,
    decreases j - i,
{
    if i < j {
        lemma_skip_field(s, i + 1, j);
    }
}

/// Whether `s` is a field: not empty, with no white space.
pub open spec fn is_field(s: Seq<char>) -> bool {
    s.len() > 0 && forall|k: int| 0 <= k < s.len() ==> !is_white_space(#[trigger] s[k])
}

proof fn lemma_two_fields(idx: Seq<char>, name: Seq<char>, flag: bool)
    requires
        is_field(idx),
        is_field(name),
    ensures
        fields_desc(idx + seq![' '] + name, flag) == if is_u32_text(idx) && name != empty_slot() {
            Some((name, flag))
        } else {
            None
        },
{
    let body = idx + seq![' '] + name;
    let a1 = idx.len() as int;
    let b1 = body.len() as int;
    lemma_skip_space(body, 0, 0);
    assert forall|k: int| 0 <= k < a1 implies !is_white_space(#[trigger] body[k]) by {
        assert(body[k] == idx[k]);
    }
    assert(is_white_space(body[a1]));
    lemma_skip_field(body, 0, a1);
    assert(body[a1 + 1] == name[0]);
    lemma_skip_space(body, a1, a1 + 1);
    assert forall|k: int| a1 + 1 <= k < b1 implies !is_white_space(#[trigger] body[k]) by {
        assert(body[k] == name[k - a1 - 1]);
    }
    lemma_skip_field(body, a1 + 1, b1);
    lemma_skip_space(body, b1, b1);
    assert(body.subrange(0, a1) =~= idx);
    assert(body.subrange(a1 + 1, b1) =~= name);
}

/// From `i`, `skip_space` and `skip_field` stay within `s`, and what they
/// pass over is white space and field characters respectively.
proof fn lemma_skip_bounds(s: Seq<char>, i: int)
    requires
        0 <= i <= s.len(),
    ensures
        i <= skip_space(s, i) <= s.len(),
        skip_space(s, i) < s.len() ==> !is_white_space(s[skip_space(s, i)]),
        i <= skip_field(s, i) <= s.len(),
        forall|k: int| i <= k < skip_field(s, i) ==> !is_white_space(#[trigger] s[k]),
    decreases s.len() - i,
{
    if i < s.len() {
        lemma_skip_bounds(s, i + 1);
    }
}

/// The name that a line describes is one field: not empty, and with no
/// white space in it.
pub proof fn lemma_name_is_field(s: Seq<char>)
    ensures
        desc_of(s) matches Some((name, _)) ==> is_field(name),
{
    let body = if selected_marker().is_prefix_of(s) {
        s.skip(4)
    } else {
        s
    };
    lemma_skip_bounds(body, 0);
    let a0 = skip_space(body, 0);
    lemma_skip_bounds(body, a0);
    let a1 = skip_field(body, a0);
    lemma_skip_bounds(body, a1);
    let b0 = skip_space(body, a1);
    lemma_skip_bounds(body, b0);
    let b1 = skip_field(body, b0);
    if b0 < body.len() {
        if b1 == b0 {
            assert(!is_white_space(body[b0]));
            assert(skip_field(body, b0) == skip_field(body, b0 + 1));
            lemma_skip_bounds(body, b0 + 1);
        }
        let name = body.subrange(b0, b1);
        assert forall|k: int| 0 <= k < name.len() implies !is_white_space(#[trigger] name[k]) by {
            assert(name[k] == body[b0 + k]);
        }
    }
}

/// A line made of the selection marker, an index, a space and a name
/// describes that chip as selected; without the marker, as not selected. A
/// line whose name is `NONE`, or whose index is no number, describes none.
#[verifier::rlimit(50)]
pub proof fn lemma_line_shape(idx: Seq<char>, name: Seq<char>)
    requires
        is_field(idx),
        is_field(name),
        idx[0] != '*',
    ensures
        is_u32_text(idx) && name != empty_slot() ==> desc_of(
            selected_marker() + idx + seq![' '] + name,
        ) == Some((name, true)),
        is_u32_text(idx) && name != empty_slot() ==> desc_of(idx + seq![' '] + name) == Some(
            (name, false),
        ),
        desc_of(idx + seq![' '] + empty_slot()) is None,
        !is_u32_text(idx) ==> desc_of(selected_marker() + idx + seq![' '] + name) is None,
        !is_u32_text(idx) ==> desc_of(idx + seq![' '] + name) is None,
{
    let plain = idx + seq![' '] + name;
    let marked = selected_marker() + plain;
    assert(marked == selected_marker() + idx + seq![' '] + name);
    assert(selected_marker().is_prefix_of(marked)) by {
        assert(marked.subrange(0, 4) =~= selected_marker());
    }
    assert(marked.skip(4) =~= plain);
    assert(plain[0] == idx[0]);
    assert(!selected_marker().is_prefix_of(plain)) by {
        if plain.len() >= 4 {
            assert(plain.subrange(0, 4)[0] == plain[0]);
        }
    }
    lemma_two_fields(idx, name, true);
    lemma_two_fields(idx, name, false);
    assert(is_field(empty_slot())) by {
        assert forall|k: int| 0 <= k < 4 implies !is_white_space(#[trigger] empty_slot()[k]) by {}
    }
    lemma_two_fields(idx, empty_slot(), false);
    let none_line = idx + seq![' '] + empty_slot();
    assert(none_line[0] == idx[0]);
    assert(!selected_marker().is_prefix_of(none_line)) by {
        if none_line.len() >= 4 {
            assert(none_line.subrange(0, 4)[0] == none_line[0]);
        }
    }
}

/// The lines of `b`, split at each line break, as `<[u8]>::split` cuts them:
/// one more line than there are line breaks.
pub open spec fn split_lines(b: Seq<u8>) -> Seq<Seq<u8>>
    decreases b.len(),
{
    if b.len() == 0 {
        seq![Seq::empty()]
    } else {
        let prev = split_lines(b.drop_last());
        if b.last() == NEWLINE {
            prev.push(Seq::empty())
        } else {
            prev.update(prev.len() - 1, prev.last().push(b.last()))
        }
    }
}

/// Cuts `raw` into its lines, without the line breaks.
pub fn lines_of(raw: &[u8]) -> (r: Vec<Vec<u8>>)
    ensures
        r@.len() == split_lines(raw@).len(),
        forall|j: int| 0 <= j < r@.len() ==> #[trigger] r@[j]@ == split_lines(raw@)[j],
{
    let mut lines: Vec<Vec<u8>> = Vec::new();
    let mut cur: Vec<u8> = Vec::new();
    let mut i: usize = 0;
    while i < raw.len()
        invariant
            i <= raw@.len(),
            split_lines(raw@.take(i as int)).len() == lines@.len() + 1,
            split_lines(raw@.take(i as int)).last() == cur@,
            forall|j: int|
                0 <= j < lines@.len() ==> #[trigger] lines@[j]@ == split_lines(
                    raw@.take(i as int),
                )[j],
        decreases raw@.len() - i,
    {
        assert(raw@.take(i + 1).drop_last() == raw@.take(i as int));
        assert(raw@.take(i + 1).last() == raw@[i as int]);
        if raw[i] == NEWLINE {
            lines.push(cur);
            cur = Vec::new();
        } else {
            cur.push(raw[i]);
        }
        i = i + 1;
    }
    assert(raw@.take(raw@.len() as int) == raw@);
    lines.push(cur);
    lines
}

/// What a raw listing line describes, if anything: lines that are not valid
/// UTF-8 describe nothing.
pub open spec fn entry_of(line: Seq<u8>) -> Option<(Seq<char>, bool)> {
    if valid_utf8(line) {
        desc_of(trim(decode_utf8(line)))
    } else {
        None
    }
}

/// Reads one raw listing line.
pub fn parse_line(line: &[u8]) -> (r: Option<(ChipDesc, bool)>)
    ensures
        match entry_of(line@) {
            None => r is None,
            Some((name, flag)) => r matches Some((c, f)) && c@ == (name, name) && f == flag,
        },
{
    match decode_text(line) {
        None => None,
        Some(s) => parse_desc(trim_text(s)),
    }
}

/// The chips that the lines `lines` describe, in order, each with its
/// selection flag.
pub open spec fn entries_of(lines: Seq<Seq<u8>>) -> Seq<(Seq<char>, bool)>
    decreases lines.len(),
{
    if lines.len() == 0 {
        Seq::empty()
    } else {
        let e = entries_of(lines.drop_last());
        match entry_of(lines.last()) {
            Some(x) => e.push(x),
            None => e,
        }
    }
}

/// The name of the last entry that carries the selection marker.
pub open spec fn last_selected(es: Seq<(Seq<char>, bool)>) -> Option<Seq<char>>
    decreases es.len(),
{
    if es.len() == 0 {
        None
    } else if es.last().1 {
        Some(es.last().0)
    } else {
        last_selected(es.drop_last())
    }
}

/// The chip that a name read from a listing stands for.
pub open spec fn chip_named(name: Seq<char>) -> ChipView {
    (name, name)
}

/// The supported chips that a listing reply announces, in order.
pub open spec fn supported_of(raw: Seq<u8>) -> Seq<ChipView> {
    entries_of(split_lines(raw)).map_values(|e: (Seq<char>, bool)| chip_named(e.0))
}

/// The chip that a listing reply marks as selected, if any.
pub open spec fn selected_of(raw: Seq<u8>) -> Option<ChipView> {
    match last_selected(entries_of(split_lines(raw))) {
        Some(n) => Some(chip_named(n)),
        None => None,
    }
}

/// A chip that a listing marks as selected is among the chips it lists.
pub proof fn lemma_selected_listed(raw: Seq<u8>)
    ensures
        selected_of(raw) matches Some(c) ==> supported_of(raw).contains(c),
{
    let es = entries_of(split_lines(raw));
    lemma_last_selected_in(es);
    if let Some(n) = last_selected(es) {
        let j = choose|j: int| 0 <= j < es.len() && es[j].0 == n;
        assert(supported_of(raw)[j] == chip_named(n));
    }
}

proof fn lemma_last_selected_in(es: Seq<(Seq<char>, bool)>)
    ensures
        last_selected(es) matches Some(n) ==> exists|j: int| 0 <= j < es.len() && es[j].0 == n,
    decreases es.len(),
{
    if es.len() > 0 && !es.last().1 {
        let init = es.drop_last();
        lemma_last_selected_in(init);
        if let Some(n) = last_selected(init) {
            let j = choose|j: int| 0 <= j < init.len() && init[j].0 == n;
            assert(es[j] == init[j]);
        }
    }
}

/// Reads a whole listing reply: the supported chips in order, and the chip
/// of the last line that carries the selection marker.
pub fn parse_listing(raw: &[u8]) -> (r: (Vec<ChipDesc>, Option<ChipDesc>))
    ensures
        chips_view(r.0@) == supported_of(raw@),
        opt_view(r.1) == selected_of(raw@),
{
    let lines = lines_of(raw);
    let ghost ls = split_lines(raw@);
    let mut supported: Vec<ChipDesc> = Vec::new();
    let mut selected: Option<ChipDesc> = None;
    let mut i: usize = 0;
    while i < lines.len()
        invariant
            i <= lines@.len(),
            ls == split_lines(raw@),
            lines@.len() == ls.len(),
            forall|j: int| 0 <= j < lines@.len() ==> #[trigger] lines@[j]@ == ls[j],
            supported@.len() == entries_of(ls.take(i as int)).len(),
            forall|j: int|
                0 <= j < supported@.len() ==> #[trigger] supported@[j]@ == chip_named(
                    entries_of(ls.take(i as int))[j].0,
                ),
            opt_view(selected) == match last_selected(entries_of(ls.take(i as int))) {
                Some(n) => Some(chip_named(n)),
                None => None,
            },
        decreases lines@.len() - i,
    {
        assert(ls.take(i + 1).drop_last() == ls.take(i as int));
        assert(ls.take(i + 1).last() == lines@[i as int]@);
        let ghost before = entries_of(ls.take(i as int));
        let ghost after = entries_of(ls.take(i + 1));
        match parse_line(lines[i].as_slice()) {
            Some((c, flag)) => {
                assert(after == before.push((c.name@, flag)));
                assert(after.drop_last() == before);
                assert(after.last() == (c.name@, flag));
                if flag {
                    selected = Some(c.duplicate());
                }
                supported.push(c);
            },
            None => {
                assert(after == before);
            },
        }
        i = i + 1;
    }
    assert(ls.take(lines@.len() as int) == ls);
    assert(chips_view(supported@) =~= supported_of(raw@));
    (supported, selected)
}

/// Whether a reply ends with the device's idle prompt: a line break, `>`
/// and a space.
pub open spec fn ends_with_prompt(resp: Seq<u8>) -> bool {
    resp.len() >= 3 && resp.subrange(resp.len() - 3, resp.len() as int) == seq![10u8, 62u8, 32u8]
}

/// Reads the reply to a presence probe: the device is there when the reply
/// ends with its prompt.
pub fn is_prompt(resp: &[u8]) -> (r: bool)
    ensures
        r == ends_with_prompt(resp@),
{
    let n = resp.len();
    if n < 3 {
        return false;
    }
    let r = resp[n - 3] == NEWLINE && resp[n - 2] == 62u8 && resp[n - 1] == 32u8;
    proof {
        let tail = resp@.subrange(n - 3, n as int);
        if r {
            assert(tail =~= seq![10u8, 62u8, 32u8]);
        } else {
            assert(tail[0] != 10u8 || tail[1] != 62u8 || tail[2] != 32u8);
        }
    }
    r
}

/// Whether a raw reply line, trimmed, starts with `***`.
pub open spec fn line_confirms(line: Seq<u8>) -> bool {
    valid_utf8(line) && seq!['*', '*', '*'].is_prefix_of(trim(decode_utf8(line)))
}

/// Whether a reply to a selection request confirms it: some line of it,
/// trimmed, starts with `***`.
pub open spec fn confirms_selection(resp: Seq<u8>) -> bool {
    exists|j: int| 0 <= j < split_lines(resp).len() && line_confirms(#[trigger] split_lines(resp)[j])
}

/// Reads one reply line of a selection request.
fn confirming_line(line: &[u8]) -> (r: bool)
    ensures
        r == line_confirms(line@),
{
    match decode_text(line) {
        None => false,
        Some(s) => {
            let t = trim_text(s);
            let r = t.unicode_len() >= 3 && t.get_char(0) == '*' && t.get_char(1) == '*'
                && t.get_char(2) == '*';
            proof {
                if r {
                    assert(seq!['*', '*', '*'] =~= t@.subrange(0, 3));
                } else if t@.len() >= 3 {
                    assert(t@.subrange(0, 3)[0] == t@[0] && t@.subrange(0, 3)[1] == t@[1]
                        && t@.subrange(0, 3)[2] == t@[2]);
                }
            }
            r
        },
    }
}

/// Reads the reply to a request that selects `chip`: success when the
/// device confirmed it, else `ProtocolMismatch` with the raw reply and the
/// chip's name.
pub fn check_selection(resp: &[u8], chip: &ChipDesc) -> (r: Result<(), DumperError>)
    ensures
        confirms_selection(resp@) <==> r is Ok,
        r is Err ==> (r matches Err(DumperError::ProtocolMismatch { response, chip: name })
            && response@ == resp@ && name@ == chip.name@),
{
    let lines = lines_of(resp);
    let mut i: usize = 0;
    while i < lines.len()
        invariant
            i <= lines@.len(),
            lines@.len() == split_lines(resp@).len(),
            forall|j: int| 0 <= j < lines@.len() ==> #[trigger] lines@[j]@ == split_lines(resp@)[j],
            forall|j: int| 0 <= j < i ==> !line_confirms(#[trigger] split_lines(resp@)[j]),
        decreases lines@.len() - i,
    {
        if confirming_line(lines[i].as_slice()) {
            assert(line_confirms(split_lines(resp@)[i as int]));
            return Ok(());
        }
        i = i + 1;
    }
    Err(DumperError::ProtocolMismatch { response: slice_to_vec(resp), chip: chip.name.clone() })
}

/// The read timeout for the line protocol, in milliseconds.
pub const LINE_TIMEOUT_MS: u64 = 10;

/// The read timeout while a chip's contents are transferred, in milliseconds.
pub const TRANSFER_TIMEOUT_MS: u64 = 2000;

/// The request that probes for the device's prompt.
pub fn probe_request() -> (r: Vec<u8>)
    ensures
        r@ == seq![NEWLINE],
{
    vec![NEWLINE]
}

/// The request that lists the supported chips: `l` and a line break.
pub fn list_request() -> (r: Vec<u8>)
    ensures
        r@ == seq![108u8, NEWLINE],
{
    vec![108u8, NEWLINE]
}

/// The request that selects `chip`: `m`, the chip's key, a line break.
pub fn select_request(chip: &ChipDesc) -> (r: Vec<u8>)
    ensures
        r@ == seq![109u8] + encode_utf8(chip.key@) + seq![NEWLINE],
{
    let key = chip.key.as_str().as_bytes();
    let mut r: Vec<u8> = vec![109u8];
    let mut i: usize = 0;
    while i < key.len()
        invariant
            i <= key@.len(),
            key@ == encode_utf8(chip.key@),
            r@ == seq![109u8] + key@.take(i as int),
        decreases key@.len() - i,
    {
        r.push(key[i]);
        assert(key@.take(i + 1) == key@.take(i as int).push(key@[i as int]));
        i = i + 1;
    }
    assert(key@.take(key@.len() as int) == key@);
    r.push(NEWLINE);
    r
}

/// The PROMdate dumper, reached over a [`Link`] through a [`Channel`]. It
/// keeps the chips and the selection of the latest listing, read afresh for
/// every query.
pub struct Promdate<L: Link> {
    chan: Channel<L>,
    supported: Option<Vec<ChipDesc>>,
    selected: Option<ChipDesc>,
    fresh: Ghost<bool>,
    asked: Ghost<Seq<ChipView>>,
    outcome: Ghost<Result<(), DumperError>>,
}

impl<L: Link> Promdate<L> {
    /// The record of the calls made on the link.
    pub closed spec fn channel(&self) -> Channel<L> {
        self.chan
    }

    /// The reply to the last request, or nothing if it could not be sent.
    pub open spec fn last_reply(&self) -> Option<Seq<u8>> {
        self.channel().replies().last()
    }

    /// Takes over `link` and sets it to the line protocol's timeout;
    /// nothing is sent.
    pub fn new(link: L) -> (r: Promdate<L>)
        ensures
            r.channel().timeouts() == seq![LINE_TIMEOUT_MS],
            r.channel().sent() == Seq::<Seq<u8>>::empty(),
            r.channel().replies() == Seq::<Option<Seq<u8>>>::empty(),
            r.channel().transfers() == Seq::<(u64, Result<usize, ()>)>::empty(),
            r.listed() == Seq::<ChipView>::empty(),
            r.selection() is None,
            !r.listing_ok(),
            r.requests() == Seq::<ChipView>::empty(),
    {
        let mut chan = Channel::new(link);
        chan.set_timeout_ms(LINE_TIMEOUT_MS);
        assert(chan.timeouts() =~= seq![LINE_TIMEOUT_MS]);
        Promdate {
            chan,
            supported: None,
            selected: None,
            fresh: Ghost(false),
            asked: Ghost(Seq::empty()),
            outcome: Ghost(Ok(())),
        }
    }

    /// Sends the listing request and replaces the kept listing and
    /// selection, together, by what the reply reads as. On failure the kept
    /// listing is left as it was and marked stale.
    fn update_supported(&mut self) -> (r: Result<(), DumperError>)
        ensures
            final(self).channel().sent() == old(self).channel().sent().push(seq![108u8, NEWLINE]),
            final(self).channel().replies().len() == old(self).channel().replies().len() + 1,
            final(self).channel().timeouts() == old(self).channel().timeouts(),
            final(self).channel().transfers() == old(self).channel().transfers(),
            final(self).requests() == old(self).requests(),
            final(self).select_outcome() == old(self).select_outcome(),
            final(self).listing_ok() == r is Ok,
            r is Ok <==> final(self).last_reply() is Some,
            final(self).last_reply() matches Some(raw) ==> final(self).listed() == supported_of(raw)
                && final(self).selection() == selected_of(raw) && final(self).supported is Some,
            r is Ok ==> (final(self).selection() matches Some(s) ==> final(self).listed().contains(s)),
            r is Err ==> r == Err::<(), DumperError>(DumperError::ChannelIoError)
                && final(self).listed() == old(self).listed() && final(self).selection() == old(self).selection(),
    {
        let req = list_request();
        match self.chan.exchange(req.as_slice()) {
            Err(()) => {
                self.fresh = Ghost(false);
                Err(DumperError::ChannelIoError)
            },
            Ok(raw) => {
                let (supported, selected) = parse_listing(raw.as_slice());
                proof {
                    lemma_selected_listed(raw@);
                }
                self.supported = Some(supported);
                self.selected = selected;
                self.fresh = Ghost(true);
                Ok(())
            },
        }
    }
}

/// A copy of each chip of `v`.
fn copy_chips(v: &Vec<ChipDesc>) -> (r: Vec<ChipDesc>)
    ensures
        chips_view(r@) == chips_view(v@),
{
    let mut r: Vec<ChipDesc> = Vec::new();
    let mut i: usize = 0;
    while i < v.len()
        invariant
            i <= v@.len(),
            r@.len() == i,
            forall|j: int| 0 <= j < i ==> #[trigger] r@[j]@ == v@[j]@,
        decreases v@.len() - i,
    {
        r.push(v[i].duplicate());
        i = i + 1;
    }
    assert(chips_view(r@) =~= chips_view(v@));
    r
}

/// A copy of an optional chip.
fn copy_opt(c: &Option<ChipDesc>) -> (r: Option<ChipDesc>)
    ensures
        opt_view(r) == opt_view(*c),
{
    match c {
        Some(c) => Some(c.duplicate()),
        None => None,
    }
}

impl<L: Link> Dumper for Promdate<L> {
    closed spec fn listed(&self) -> Seq<ChipView> {
        match self.supported {
            Some(v) => chips_view(v@),
            None => Seq::empty(),
        }
    }

    closed spec fn selection(&self) -> Option<ChipView> {
        opt_view(self.selected)
    }

    closed spec fn listing_ok(&self) -> bool {
        self.fresh@
    }

    closed spec fn requests(&self) -> Seq<ChipView> {
        self.asked@
    }

    closed spec fn select_outcome(&self) -> Result<(), DumperError> {
        self.outcome@
    }

    closed spec fn sent(&self) -> Seq<Seq<u8>> {
        self.chan.sent()
    }

    open spec fn list_command() -> Seq<u8> {
        seq![108u8, NEWLINE]
    }

    /// Sends a line break and looks for the `\n> ` prompt at the end of the
    /// reply.
    fn is_present(&mut self) -> (r: Result<bool, DumperError>)
        ensures
            final(self).channel().sent() == old(self).channel().sent().push(seq![NEWLINE]),
            final(self).channel().timeouts() == old(self).channel().timeouts(),
            final(self).channel().transfers() == old(self).channel().transfers(),
            r is Ok <==> final(self).last_reply() is Some,
            r matches Ok(b) ==> b == ends_with_prompt(final(self).last_reply()->Some_0),
    {
        let req = probe_request();
        let reply = self.chan.exchange(req.as_slice());
        assert(self.sent().subrange(0, old(self).sent().len() as int) =~= old(self).sent());
        match reply {
            Err(()) => Err(DumperError::ChannelIoError),
            Ok(resp) => Ok(is_prompt(resp.as_slice())),
        }
    }

    fn list_supported(&mut self) -> (r: Result<Vec<ChipDesc>, DumperError>)
        ensures
            final(self).channel().timeouts() == old(self).channel().timeouts(),
            final(self).channel().transfers() == old(self).channel().transfers(),
            r is Ok <==> final(self).last_reply() is Some,
            r matches Ok(v) ==> chips_view(v@) == supported_of(final(self).last_reply()->Some_0),
    {
        match self.update_supported() {
            Err(e) => Err(e),
            Ok(()) => match &self.supported {
                Some(v) => Ok(copy_chips(v)),
                None => Ok(Vec::new()),
            },
        }
    }

    fn selected_chip(&mut self) -> (r: Result<Option<ChipDesc>, DumperError>)
        ensures
            final(self).channel().timeouts() == old(self).channel().timeouts(),
            final(self).channel().transfers() == old(self).channel().transfers(),
            r is Ok <==> final(self).last_reply() is Some,
            r matches Ok(c) ==> opt_view(c) == selected_of(final(self).last_reply()->Some_0),
    {
        match self.update_supported() {
            Err(e) => Err(e),
            Ok(()) => Ok(copy_opt(&self.selected)),
        }
    }

    /// Sends `m`, the chip's key and a line break, and looks for a
    /// confirming line in the reply.
    fn set_selected_chip(&mut self, chip: &ChipDesc) -> (r: Result<(), DumperError>)
        ensures
            final(self).channel().sent() == old(self).channel().sent().push(
                seq![109u8] + encode_utf8(chip.key@) + seq![NEWLINE],
            ),
            final(self).channel().timeouts() == old(self).channel().timeouts(),
            final(self).channel().transfers() == old(self).channel().transfers(),
            r is Ok <==> (final(self).last_reply() matches Some(x) && confirms_selection(x)),
            (final(self).last_reply() is None) ==> r == Err::<(), DumperError>(DumperError::ChannelIoError),
    {
        self.asked = Ghost(self.asked@.push(chip@));
        let req = select_request(chip);
        let r = match self.chan.exchange(req.as_slice()) {
            Err(()) => Err(DumperError::ChannelIoError),
            Ok(resp) => check_selection(resp.as_slice(), chip),
        };
        self.outcome = Ghost(r);
        assert(self.sent().subrange(0, old(self).sent().len() as int) =~= old(self).sent());
        r
    }

    /// Widens the link's read timeout for the block transfer and sets it back
    /// to the line protocol's timeout on every path. The result is the
    /// transfer's own: its byte count, or `TransferFailed`.
    fn dump_chip(&mut self, sink: &mut Vec<u8>) -> (r: Result<usize, DumperError>)
        ensures
            final(self).channel().timeouts() == old(self).channel().timeouts().push(
                TRANSFER_TIMEOUT_MS,
            ).push(LINE_TIMEOUT_MS),
            final(self).channel().transfers().len() == old(self).channel().transfers().len() + 1,
            final(self).channel().transfers().drop_last() == old(self).channel().transfers(),
            final(self).channel().transfers().last().0 == TRANSFER_TIMEOUT_MS,
            final(self).channel().transfers().last().1 matches Ok(n) ==> r == Ok::<usize, DumperError>(n),
            final(self).channel().transfers().last().1 is Err ==> r is Err,
            final(self).channel().replies() == old(self).channel().replies(),
    {
        self.chan.set_timeout_ms(TRANSFER_TIMEOUT_MS);
        let outcome = self.chan.receive_transfer(sink);
        self.chan.set_timeout_ms(LINE_TIMEOUT_MS);
        assert(self.chan.transfers().drop_last() =~= old(self).chan.transfers());
        match outcome {
            Ok(n) => Ok(n),
            Err(()) => Err(DumperError::TransferFailed),
        }
    }
}

} // verus!
