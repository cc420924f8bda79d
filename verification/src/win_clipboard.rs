//! The clipboard formats that file managers exchange on Windows: the file list
//! (`CF_HDROP`: a `DROPFILES` header, then each path in UTF-16 ending in a zero unit,
//! then one more zero unit) and the "Preferred DropEffect" (2 for a cut, 1 for a copy).
//! Writing them here and reading them back give the same paths and the same cut flag.

use vstd::prelude::*;

verus! {

/// The UTF-16 code units of one character: itself below 0x10000, else a surrogate pair.
pub open spec fn utf16_of_char(c: char) -> Seq<u16> {
    let v = c as int;
    if v < 0x10000 {
        seq![v as u16]
    } else {
        seq![(0xD800 + (v - 0x10000) / 0x400) as u16, (0xDC00 + (v - 0x10000) % 0x400) as u16]
    }
}

/// The UTF-16 code units of a text.
pub open spec fn utf16_of(s: Seq<char>) -> Seq<u16>
    decreases s.len(),
{
    if s.len() == 0 {
        seq![]
    } else {
        utf16_of(s.drop_last()) + utf16_of_char(s.last())
    }
}

/// Each path's code units followed by a zero unit.
pub open spec fn terminated_units(paths: Seq<Seq<char>>) -> Seq<u16>
    decreases paths.len(),
{
    if paths.len() == 0 {
        seq![]
    } else {
        utf16_of(paths[0]) + seq![0u16] + terminated_units(paths.drop_first())
    }
}

/// A unit as two bytes, low byte first.
pub open spec fn le_bytes(units: Seq<u16>) -> Seq<u8>
    decreases units.len(),
{
    if units.len() == 0 {
        seq![]
    } else {
        le_bytes(units.drop_last()) + seq![(units.last() % 256) as u8, (units.last() / 256) as u8]
    }
}

/// The `DROPFILES` header: the list starts at byte 20 (`pFiles`), at point (0, 0),
/// not in the non-client area, in wide characters (`fWide` = 1); fields little-endian.
pub open spec fn drop_files_header() -> Seq<u8> {
    seq![20, 0, 0, 0, 0, 0, 0, 0, 0, 0, 0, 0, 0, 0, 0, 0, 1, 0, 0, 0]
}

/// The `CF_HDROP` data for `paths`.
pub open spec fn file_list_bytes(paths: Seq<Seq<char>>) -> Seq<u8> {
    drop_files_header() + le_bytes(terminated_units(paths) + seq![0u16])
}

/// The "Preferred DropEffect" data: `DROPEFFECT_MOVE` (2) for a cut, `DROPEFFECT_COPY` (1)
/// for a copy, as a little-endian 32-bit value.
pub open spec fn drop_effect_bytes(cut: bool) -> Seq<u8> {
    if cut { seq![2, 0, 0, 0] } else { seq![1, 0, 0, 0] }
}

/// The data to put on the clipboard for a list of files.
pub struct ClipboardFiles {
    /// The `CF_HDROP` data.
    pub file_list: Vec<u8>,
    /// The "Preferred DropEffect" data.
    pub drop_effect: Vec<u8>,
}

fn push_unit(bytes: &mut Vec<u8>, unit: u16)
    ensures
        final(bytes)@ == old(bytes)@ + seq![(unit % 256) as u8, (unit / 256) as u8],
{
    bytes.push((unit % 256) as u8);
    bytes.push((unit / 256) as u8);
    assert(bytes@ =~= old(bytes)@ + seq![(unit % 256) as u8, (unit / 256) as u8]);
}

proof fn lemma_le_bytes_append(a: Seq<u16>, b: Seq<u16>)
    ensures
        le_bytes(a + b) == le_bytes(a) + le_bytes(b),
    decreases b.len(),
{
    if b.len() == 0 {
        assert(a + b =~= a);
        assert(le_bytes(a) + le_bytes(b) =~= le_bytes(a));
    } else {
        lemma_le_bytes_append(a, b.drop_last());
        assert((a + b).drop_last() =~= a + b.drop_last());
        assert((a + b).last() == b.last());
        assert(le_bytes(a + b) =~= le_bytes(a) + le_bytes(b));
    }
}

/// Appends the code units of `c`, as little-endian bytes.
fn push_char_units(bytes: &mut Vec<u8>, c: char)
    ensures
        final(bytes)@ == old(bytes)@ + le_bytes(utf16_of_char(c)),
{
    let v = c as u32;
    assert(v as int == c as int);
    if v < 0x10000 {
        push_unit(bytes, v as u16);
        assert(le_bytes(utf16_of_char(c)) =~= seq![(v as u16 % 256) as u8, (v as u16 / 256) as u8]) by {
            reveal_with_fuel(le_bytes, 2);
            assert(utf16_of_char(c).drop_last() =~= Seq::<u16>::empty());
        }
    } else {
        let w = v - 0x10000;
        let high = (0xD800 + w / 0x400) as u16;
        let low = (0xDC00 + w % 0x400) as u16;
        push_unit(bytes, high);
        push_unit(bytes, low);
        assert(le_bytes(utf16_of_char(c)) =~= seq![(high % 256) as u8, (high / 256) as u8, (low % 256) as u8, (low / 256) as u8]) by {
            reveal_with_fuel(le_bytes, 3);
            let u = utf16_of_char(c);
            assert(u.drop_last().drop_last() =~= Seq::<u16>::empty());
            assert(u.drop_last() =~= seq![high]);
        }
    }
}

/// Appends the code units of `s`, as little-endian bytes.
fn push_text_units(bytes: &mut Vec<u8>, s: &str)
    ensures
        final(bytes)@ == old(bytes)@ + le_bytes(utf16_of(s@)),
{
    broadcast use vstd::string::group_string_axioms;
    let ghost start = bytes@;
    let ghost mut n: int = 0;
    for c in it: s.chars()
        invariant
            n == it.index(),
            it.seq() == s@,
            bytes@ == start + le_bytes(utf16_of(s@.take(n as int))),
    {
        proof {
            assert(s@.take(n + 1).drop_last() =~= s@.take(n as int));
            assert(s@.take(n + 1).last() == c);
            lemma_le_bytes_append(utf16_of(s@.take(n as int)), utf16_of_char(c));
        }
        push_char_units(bytes, c);
        proof { n = n + 1; }
    }
    assert(s@.take(n as int) =~= s@);
}

/// The clipboard data for `paths`, cut or copied: the file list and the drop effect.
pub fn write_paths(paths: &Vec<String>, cut: bool) -> (res: ClipboardFiles)
    ensures
        res.file_list@ == file_list_bytes(paths.deep_view()),
        res.drop_effect@ == drop_effect_bytes(cut),
{
    let mut bytes: Vec<u8> = vec![20, 0, 0, 0, 0, 0, 0, 0, 0, 0, 0, 0, 0, 0, 0, 0, 1, 0, 0, 0];
    let ghost mut done: Seq<u16> = seq![];
    assert(bytes@ =~= drop_files_header() + le_bytes(done));
    assert(paths.deep_view().skip(0) =~= paths.deep_view());
    let mut i: usize = 0;
    while i < paths.len()
        invariant
            i <= paths@.len(),
            bytes@ == drop_files_header() + le_bytes(done),
            done + terminated_units(paths.deep_view().skip(i as int)) == terminated_units(paths.deep_view()),
        decreases paths@.len() - i,
    {
        let ghost before = done;
        proof {
            let rest = paths.deep_view().skip(i as int);
            assert(rest[0] == paths@[i as int]@);
            assert(rest.drop_first() =~= paths.deep_view().skip(i + 1));
            assert(done + terminated_units(rest) =~= (before + utf16_of(paths@[i as int]@) + seq![0u16])
                + terminated_units(paths.deep_view().skip(i + 1)));
            done = before + utf16_of(paths@[i as int]@) + seq![0u16];
            lemma_le_bytes_append(before, utf16_of(paths@[i as int]@));
            lemma_le_bytes_append(before + utf16_of(paths@[i as int]@), seq![0u16]);
            assert(le_bytes(seq![0u16]) =~= seq![0u8, 0u8]) by {
                reveal_with_fuel(le_bytes, 2);
                assert(seq![0u16].drop_last() =~= Seq::<u16>::empty());
            }
        }
        push_text_units(&mut bytes, paths[i].as_str());
        push_unit(&mut bytes, 0);
        i = i + 1;
    }
    proof {
        assert(paths.deep_view().skip(i as int) =~= Seq::<Seq<char>>::empty());
        assert(done =~= terminated_units(paths.deep_view()));
        let t = terminated_units(paths.deep_view());
        lemma_le_bytes_append(t, seq![0u16]);
        assert(le_bytes(seq![0u16]) =~= seq![0u8, 0u8]) by {
            assert(seq![0u16].drop_last() =~= Seq::<u16>::empty());
        }
    }
    push_unit(&mut bytes, 0);
    let drop_effect: Vec<u8> = if cut { vec![2, 0, 0, 0] } else { vec![1, 0, 0, 0] };
    assert(drop_effect@ =~= drop_effect_bytes(cut));
    ClipboardFiles { file_list: bytes, drop_effect }
}

/// The little-endian 16-bit unit at byte `i`.
pub open spec fn unit_at(bytes: Seq<u8>, i: int) -> u16 {
    (bytes[i] + 256 * bytes[i + 1]) as u16
}

/// The little-endian 32-bit value at byte `i`.
pub open spec fn u32_at(bytes: Seq<u8>, i: int) -> int {
    bytes[i] + 256 * bytes[i + 1] + 65536 * bytes[i + 2] + 16777216 * bytes[i + 3]
}

/// The 16-bit units from byte `start` on (a trailing odd byte is not a unit).
pub open spec fn units_from(bytes: Seq<u8>, start: int) -> Seq<u16> {
    Seq::new(((bytes.len() - start) / 2) as nat, |k: int| unit_at(bytes, start + 2 * k))
}

/// The index of the first zero unit, or -1.
pub open spec fn first_zero(units: Seq<u16>) -> int
    decreases units.len(),
{
    if units.len() == 0 {
        -1
    } else if units[0] == 0 {
        0
    } else {
        let r = first_zero(units.drop_first());
        if r < 0 { -1 } else { r + 1 }
    }
}

/// `first_zero` finds the first zero unit, or tells that there is none.
pub proof fn lemma_first_zero_bound(units: Seq<u16>)
    ensures
        -1 <= first_zero(units) < units.len(),
        first_zero(units) >= 0 ==> units[first_zero(units)] == 0,
        first_zero(units) >= 0 ==> forall|j: int| 0 <= j < first_zero(units) ==> units[j] != 0,
        first_zero(units) < 0 ==> forall|j: int| 0 <= j < units.len() ==> units[j] != 0,
    decreases units.len(),
{
    if units.len() > 0 && units[0] != 0 {
        lemma_first_zero_bound(units.drop_first());
        let r = first_zero(units.drop_first());
        if r >= 0 {
            assert forall|j: int| 0 <= j < r + 1 implies units[j] != 0 by {
                if j > 0 {
                    assert(units[j] == units.drop_first()[j - 1]);
                }
            }
        } else {
            assert forall|j: int| 0 <= j < units.len() implies units[j] != 0 by {
                if j > 0 {
                    assert(units[j] == units.drop_first()[j - 1]);
                }
            }
        }
    }
}

/// A list of zero-terminated texts, ended by an empty text or by the end of the
/// units; a last text that the units end before its zero runs to their end.
pub open spec fn split_units(units: Seq<u16>) -> Seq<Seq<u16>>
    decreases units.len(),
{
    if units.len() == 0 || units[0] == 0 {
        seq![]
    } else {
        let k = first_zero(units);
        proof {
            lemma_first_zero_bound(units);
        }
        if k < 0 {
            seq![units]
        } else {
            seq![units.take(k)] + split_units(units.skip(k + 1))
        }
    }
}

/// Whether `CF_HDROP` data holds its list in wide characters (`fWide` is not 0); data
/// shorter than the header counts as wide, with nothing in it.
pub open spec fn list_is_wide(bytes: Seq<u8>) -> bool {
    bytes.len() < 20 || u32_at(bytes, 16) != 0
}

/// The units of a list from byte `start` on: little-endian 16-bit units in wide
/// characters (a trailing odd byte is not a unit), else one unit per byte.
pub open spec fn list_units(bytes: Seq<u8>, start: int, wide: bool) -> Seq<u16> {
    if wide {
        units_from(bytes, start)
    } else {
        Seq::new((bytes.len() - start) as nat, |k: int| bytes[start + k] as u16)
    }
}

/// The texts of `CF_HDROP` data, as units (see `list_units`): none when the data is
/// shorter than the header or its list starts past its end.
pub open spec fn parse_file_list(bytes: Seq<u8>) -> Seq<Seq<u16>> {
    if bytes.len() < 20 || u32_at(bytes, 0) > bytes.len() {
        seq![]
    } else {
        split_units(list_units(bytes, u32_at(bytes, 0), list_is_wide(bytes)))
    }
}

/// The bytes of a text of a list in narrow characters.
pub open spec fn narrow_text(units: Seq<u16>) -> Seq<u8> {
    units.map_values(|u: u16| u as u8)
}

/// The drop effect data means a cut: it is `DROPEFFECT_MOVE` (2).
pub open spec fn effect_is_cut(effect: Option<Vec<u8>>) -> bool {
    match effect {
        Some(b) => b@.len() >= 4 && u32_at(b@, 0) == 2,
        None => false,
    }
}

/// `data` is there, and holds `bytes`.
pub open spec fn holds(data: Option<Vec<u8>>, bytes: Seq<u8>) -> bool {
    match data {
        Some(b) => b@ == bytes,
        None => false,
    }
}

/// Every path can go through the list: it is not empty and holds no NUL character.
pub open spec fn listable(paths: Seq<Seq<char>>) -> bool {
    forall|i: int| 0 <= i < paths.len() ==> (#[trigger] paths[i]).len() > 0 && !paths[i].contains('\0')
}

/// What `String::from_utf16_lossy` gives for `units`.
pub uninterp spec fn utf16_lossy(units: Seq<u16>) -> Seq<char>;

/// Calls `String::from_utf16_lossy`. The contract claims that the result is a function
/// of the units (`utf16_lossy`), and, as its documentation says (only invalid data is
/// replaced), that the UTF-16 of a text decodes to that text.
#[verifier::external_body]
fn string_from_utf16_lossy(units: &[u16]) -> (res: String)
    ensures
        res@ == utf16_lossy(units@),
        forall|text: Seq<char>| units@ == utf16_of(text) ==> res@ == text,
{
    String::from_utf16_lossy(units)
}

proof fn lemma_le_bytes_index(units: Seq<u16>)
    ensures
        le_bytes(units).len() == 2 * units.len(),
        forall|k: int| 0 <= k < units.len() ==> #[trigger] unit_at(le_bytes(units), 2 * k) == units[k],
    decreases units.len(),
{
    if units.len() > 0 {
        let init = units.drop_last();
        lemma_le_bytes_index(init);
        let b = le_bytes(units);
        assert(b == le_bytes(init) + seq![(units.last() % 256) as u8, (units.last() / 256) as u8]);
        assert forall|k: int| 0 <= k < units.len() implies #[trigger] unit_at(b, 2 * k) == units[k] by {
            if k < init.len() {
                assert(b[2 * k] == le_bytes(init)[2 * k]);
                assert(b[2 * k + 1] == le_bytes(init)[2 * k + 1]);
                assert(unit_at(le_bytes(init), 2 * k) == init[k]);
            } else {
                assert(b[2 * k] == (units.last() % 256) as u8);
                assert(b[2 * k + 1] == (units.last() / 256) as u8);
            }
        }
    }
}

proof fn lemma_first_zero_at(units: Seq<u16>, k: int)
    requires
        0 <= k < units.len(),
        units[k] == 0,
        forall|j: int| 0 <= j < k ==> units[j] != 0,
    ensures
        first_zero(units) == k,
    decreases k,
{
    if k > 0 {
        lemma_first_zero_at(units.drop_first(), k - 1);
    }
}

proof fn lemma_first_zero_none(units: Seq<u16>)
    requires
        forall|j: int| 0 <= j < units.len() ==> units[j] != 0,
    ensures
        first_zero(units) == -1,
    decreases units.len(),
{
    if units.len() > 0 {
        lemma_first_zero_none(units.drop_first());
    }
}

proof fn lemma_utf16_char_nonzero(c: char)
    requires
        c != '\0',
    ensures
        utf16_of_char(c).len() >= 1,
        forall|j: int| 0 <= j < utf16_of_char(c).len() ==> #[trigger] utf16_of_char(c)[j] != 0,
{
    assert(c as int != 0);
}

proof fn lemma_utf16_nonzero(text: Seq<char>)
    requires
        !text.contains('\0'),
    ensures
        text.len() > 0 ==> utf16_of(text).len() > 0,
        forall|j: int| 0 <= j < utf16_of(text).len() ==> #[trigger] utf16_of(text)[j] != 0,
    decreases text.len(),
{
    if text.len() > 0 {
        assert(!text.drop_last().contains('\0')) by {
            if text.drop_last().contains('\0') {
                let j = choose|j: int| 0 <= j < text.drop_last().len() && text.drop_last()[j] == '\0';
                assert(text[j] == '\0');
            }
        }
        assert(text.last() != '\0') by {
            assert(text[text.len() - 1] == text.last());
        }
        lemma_utf16_nonzero(text.drop_last());
        lemma_utf16_char_nonzero(text.last());
        let a = utf16_of(text.drop_last());
        let b = utf16_of_char(text.last());
        assert forall|j: int| 0 <= j < utf16_of(text).len() implies #[trigger] utf16_of(text)[j] != 0 by {
            if j < a.len() {
                assert(utf16_of(text)[j] == a[j]);
            } else {
                assert(utf16_of(text)[j] == b[j - a.len()]);
            }
        }
    }
}

/// The file list that `write_paths` writes reads back as the code units of the paths,
/// when every path is listable.
pub proof fn lemma_file_list_roundtrip(paths: Seq<Seq<char>>)
    requires
        listable(paths),
    ensures
        list_is_wide(file_list_bytes(paths)),
        parse_file_list(file_list_bytes(paths)) == paths.map_values(|p: Seq<char>| utf16_of(p)),
{
    let units = terminated_units(paths) + seq![0u16];
    let bytes = file_list_bytes(paths);
    lemma_le_bytes_index(units);
    assert(u32_at(bytes, 0) == 20);
    assert(u32_at(bytes, 16) == 1);
    assert(units_from(bytes, 20) =~= units) by {
        assert forall|k: int| 0 <= k < units.len() implies #[trigger] units_from(bytes, 20)[k] == units[k] by {
            assert(bytes[20 + 2 * k] == le_bytes(units)[2 * k]);
            assert(bytes[20 + 2 * k + 1] == le_bytes(units)[2 * k + 1]);
            assert(unit_at(le_bytes(units), 2 * k) == units[k]);
        }
    }
    lemma_split_roundtrip(paths);
}

proof fn lemma_split_roundtrip(paths: Seq<Seq<char>>)
    requires
        listable(paths),
    ensures
        split_units(terminated_units(paths) + seq![0u16]) == paths.map_values(|p: Seq<char>| utf16_of(p)),
    decreases paths.len(),
{
    let units = terminated_units(paths) + seq![0u16];
    if paths.len() == 0 {
        assert(units =~= seq![0u16]);
        assert(paths.map_values(|p: Seq<char>| utf16_of(p)) =~= Seq::<Seq<u16>>::empty());
    } else {
        let rest = paths.drop_first();
        assert(listable(rest)) by {
            assert forall|i: int| 0 <= i < rest.len() implies (#[trigger] rest[i]).len() > 0 && !rest[i].contains('\0') by {
                assert(rest[i] == paths[i + 1]);
            }
        }
        lemma_split_roundtrip(rest);
        assert(paths[0].len() > 0 && !paths[0].contains('\0'));
        lemma_utf16_nonzero(paths[0]);
        let head = utf16_of(paths[0]);
        let k = head.len() as int;
        let tail = terminated_units(rest) + seq![0u16];
        assert(units =~= head + seq![0u16] + tail);
        assert(units[0] == head[0]);
        assert forall|j: int| 0 <= j < k implies units[j] != 0 by {
            assert(units[j] == head[j]);
        }
        lemma_first_zero_at(units, k);
        assert(units.skip(k + 1) =~= tail);
        assert(units.take(k) =~= head);
        assert(paths.map_values(|p: Seq<char>| utf16_of(p)) =~= seq![head] + rest.map_values(|p: Seq<char>| utf16_of(p)));
    }
}


/// The 32-bit little-endian value at byte `i`.
fn read_u32(bytes: &Vec<u8>, i: usize) -> (v: u64)
    requires
        i + 4 <= bytes.len(),
    ensures
        v == u32_at(bytes@, i as int),
{
    let b0 = bytes[i] as u64;
    let b1 = bytes[i + 1] as u64;
    let b2 = bytes[i + 2] as u64;
    let b3 = bytes[i + 3] as u64;
    assert(b0 <= 255 && b1 <= 255 && b2 <= 255 && b3 <= 255);
    b0 + 256 * b1 + 65536 * b2 + 16777216 * b3
}

/// Whether the drop effect data means a cut (see `effect_is_cut`).
fn is_cut(drop_effect: &Option<Vec<u8>>) -> (res: bool)
    ensures
        res == effect_is_cut(*drop_effect),
{
    match drop_effect {
        Some(b) => b.len() >= 4 && read_u32(b, 0) == 2,
        None => false,
    }
}

/// The texts of the list that starts at byte `start` (see `split_units`).
fn split_list(bytes: &Vec<u8>, start: usize, wide: bool) -> (texts: Vec<Vec<u16>>)
    requires
        start <= bytes@.len(),
    ensures
        texts.deep_view() == split_units(list_units(bytes@, start as int, wide)),
{
    let n = bytes.len();
    let count = if wide { (n - start) / 2 } else { n - start };
    let ghost units = list_units(bytes@, start as int, wide);
    assert(units.len() == count);
    let mut done: Vec<Vec<u16>> = Vec::new();
    let mut cur: Vec<u16> = Vec::new();
    let mut s0: usize = 0;
    let mut i: usize = 0;
    assert(units.skip(0) =~= units);
    assert(done.deep_view() + split_units(units.skip(0)) =~= split_units(units));
    while i < count
        invariant
            n == bytes@.len(),
            start <= n,
            wide ==> start + 2 * count <= n,
            !wide ==> start + count == n,
            units == list_units(bytes@, start as int, wide),
            count == units.len(),
            s0 <= i <= count,
            split_units(units) == done.deep_view() + split_units(units.skip(s0 as int)),
            cur@ == units.subrange(s0 as int, i as int),
            forall|j: int| s0 <= j < i ==> units[j] != 0,
        decreases count - i,
    {
        let unit: u16 = if wide {
            let p = start + 2 * i;
            bytes[p] as u16 + 256 * (bytes[p + 1] as u16)
        } else {
            bytes[start + i] as u16
        };
        assert(unit == units[i as int]);
        let ghost rest = units.skip(s0 as int);
        if unit != 0 {
            cur.push(unit);
            assert(cur@ =~= units.subrange(s0 as int, i + 1));
            i = i + 1;
        } else if i == s0 {
            assert(rest[0] == 0);
            assert(split_units(rest) =~= Seq::<Seq<u16>>::empty());
            assert(done.deep_view() + Seq::<Seq<u16>>::empty() =~= done.deep_view());
            return done;
        } else {
            proof {
                assert forall|j: int| 0 <= j < i - s0 implies rest[j] != 0 by {
                    assert(rest[j] == units[s0 + j]);
                }
                lemma_first_zero_at(rest, i - s0);
                assert(rest.skip(i - s0 + 1) =~= units.skip(i + 1));
                assert(rest.take(i - s0) =~= cur@);
                assert(rest[0] != 0);
                assert(split_units(rest) == seq![cur@] + split_units(units.skip(i + 1)));
            }
            let ghost before = done.deep_view();
            assert(cur.deep_view() =~= cur@);
            done.push(cur);
            assert(done.deep_view() =~= before.push(units.subrange(s0 as int, i as int)));
            assert(before + (seq![units.subrange(s0 as int, i as int)] + split_units(units.skip(i + 1)))
                =~= done.deep_view() + split_units(units.skip(i + 1)));
            cur = Vec::new();
            i = i + 1;
            s0 = i;
        }
    }
    let ghost rest = units.skip(s0 as int);
    if s0 < count {
        proof {
            assert forall|j: int| 0 <= j < rest.len() implies rest[j] != 0 by {
                assert(rest[j] == units[s0 + j]);
            }
            lemma_first_zero_none(rest);
            assert(rest =~= cur@);
            assert(split_units(rest) == seq![cur@]);
        }
        let ghost before = done.deep_view();
        assert(cur.deep_view() =~= cur@);
        done.push(cur);
        assert(done.deep_view() =~= before + seq![rest]);
    } else {
        assert(rest.len() == 0);
        assert(done.deep_view() + split_units(rest) =~= done.deep_view());
    }
    done
}

/// The paths of a file list, as read from the clipboard.
#[derive(PartialEq, Eq, Debug)]
pub enum FileNames {
    /// A list in wide characters, each path decoded from its UTF-16 units.
    Wide(Vec<String>),
    /// A list in narrow characters: each path's bytes, in the system's ANSI code page.
    Narrow(Vec<Vec<u8>>),
}

/// Decodes each text as `String::from_utf16_lossy` does.
fn decode_wide(texts: &Vec<Vec<u16>>) -> (paths: Vec<String>)
    ensures
        paths.deep_view() == texts.deep_view().map_values(|u: Seq<u16>| utf16_lossy(u)),
        forall|j: int, text: Seq<char>| #![trigger paths@[j], utf16_of(text)]
            0 <= j < texts@.len() && texts.deep_view()[j] == utf16_of(text) ==> paths@[j]@ == text,
{
    let mut paths: Vec<String> = Vec::new();
    let mut i: usize = 0;
    while i < texts.len()
        invariant
            i <= texts@.len(),
            paths@.len() == i,
            forall|j: int| 0 <= j < i ==> (#[trigger] paths@[j])@ == utf16_lossy(texts.deep_view()[j]),
            forall|j: int, text: Seq<char>| #![trigger paths@[j], utf16_of(text)]
                0 <= j < i && texts.deep_view()[j] == utf16_of(text) ==> paths@[j]@ == text,
        decreases texts@.len() - i,
    {
        assert(texts@[i as int].deep_view() =~= texts@[i as int]@);
        let text = string_from_utf16_lossy(texts[i].as_slice());
        paths.push(text);
        i = i + 1;
    }
    assert(paths.deep_view() =~= texts.deep_view().map_values(|u: Seq<u16>| utf16_lossy(u)));
    paths
}

/// Each text's units as bytes (see `narrow_text`).
fn narrow_texts(texts: &Vec<Vec<u16>>) -> (out: Vec<Vec<u8>>)
    ensures
        out.deep_view() == texts.deep_view().map_values(|u: Seq<u16>| narrow_text(u)),
{
    let mut out: Vec<Vec<u8>> = Vec::new();
    let mut i: usize = 0;
    while i < texts.len()
        invariant
            i <= texts@.len(),
            out@.len() == i,
            forall|j: int| 0 <= j < i ==> (#[trigger] out@[j]).deep_view() == narrow_text(texts.deep_view()[j]),
        decreases texts@.len() - i,
    {
        assert(texts@[i as int].deep_view() =~= texts@[i as int]@);
        let t = &texts[i];
        let mut b: Vec<u8> = Vec::new();
        let mut k: usize = 0;
        while k < t.len()
            invariant
                k <= t@.len(),
                b@ =~= narrow_text(t@).take(k as int),
            decreases t@.len() - k,
        {
            b.push(#[verifier::truncate] (t[k] as u8));
            k = k + 1;
        }
        assert(b@ =~= narrow_text(t@));
        assert(b.deep_view() =~= b@);
        out.push(b);
        i = i + 1;
    }
    assert(out.deep_view() =~= texts.deep_view().map_values(|u: Seq<u16>| narrow_text(u)));
    out
}

/// The paths on the clipboard, and whether they were cut: none when there is no file
/// list. The list's texts are read as `parse_file_list` says; in wide characters each
/// path is decoded as `String::from_utf16_lossy` does, in narrow characters its bytes
/// are handed out. Reading what `write_paths` wrote gives back its paths and its cut
/// flag, when every path is listable.
pub fn read_paths(file_list: &Option<Vec<u8>>, drop_effect: &Option<Vec<u8>>) -> (res: Option<(FileNames, bool)>)
    ensures
        match file_list {
            None => res is None,
            Some(bytes) => res matches Some((names, cut)) && cut == effect_is_cut(*drop_effect) && (if list_is_wide(bytes@) {
                names matches FileNames::Wide(paths)
                    && paths.deep_view() == parse_file_list(bytes@).map_values(|u: Seq<u16>| utf16_lossy(u))
            } else {
                names matches FileNames::Narrow(texts)
                    && texts.deep_view() == parse_file_list(bytes@).map_values(|u: Seq<u16>| narrow_text(u))
            }),
        },
        forall|paths: Seq<Seq<char>>, cut: bool|
            #![trigger file_list_bytes(paths), drop_effect_bytes(cut)]
            listable(paths) && holds(*file_list, file_list_bytes(paths)) && holds(*drop_effect, drop_effect_bytes(cut))
                ==> (res matches Some((FileNames::Wide(p), c)) && p.deep_view() == paths && c == cut),
{
    let bytes = match file_list {
        Some(b) => b,
        None => return None,
    };
    let cut = is_cut(drop_effect);
    let n = bytes.len();
    if n < 20 {
        proof {
            assert forall|paths: Seq<Seq<char>>, c: bool|
                #![trigger file_list_bytes(paths), drop_effect_bytes(c)]
                listable(paths) && holds(*file_list, file_list_bytes(paths)) && holds(*drop_effect, drop_effect_bytes(c))
                implies false by {
                assert(file_list_bytes(paths).len() >= 20);
            }
        }
        let empty: Vec<String> = Vec::new();
        assert(empty.deep_view() =~= parse_file_list(bytes@).map_values(|u: Seq<u16>| utf16_lossy(u)));
        return Some((FileNames::Wide(empty), cut));
    }
    let offset = read_u32(bytes, 0);
    let wide = read_u32(bytes, 16) != 0;
    let texts: Vec<Vec<u16>> = if offset > n as u64 {
        let empty: Vec<Vec<u16>> = Vec::new();
        assert(empty.deep_view() =~= parse_file_list(bytes@));
        empty
    } else {
        split_list(bytes, offset as usize, wide)
    };
    assert(texts.deep_view() == parse_file_list(bytes@));
    if wide {
        let paths = decode_wide(&texts);
        proof {
            assert forall|ps: Seq<Seq<char>>, c: bool|
                #![trigger file_list_bytes(ps), drop_effect_bytes(c)]
                listable(ps) && holds(*file_list, file_list_bytes(ps)) && holds(*drop_effect, drop_effect_bytes(c))
                implies paths.deep_view() == ps && cut == c by {
                lemma_file_list_roundtrip(ps);
                let lists = ps.map_values(|p: Seq<char>| utf16_of(p));
                assert(texts.deep_view() == lists);
                assert(u32_at(drop_effect_bytes(c), 0) == if c { 2int } else { 1int });
                assert forall|j: int| 0 <= j < ps.len() implies #[trigger] paths.deep_view()[j] == ps[j] by {
                    assert(texts.deep_view().len() == ps.len());
                    assert(paths.deep_view().len() == ps.len());
                    assert(paths.deep_view()[j] == paths@[j]@);
                    assert(texts.deep_view()[j] == utf16_of(ps[j]));
                    assert(paths@[j]@ == ps[j]);
                }
                assert(paths.deep_view() =~= ps);
            }
        }
        Some((FileNames::Wide(paths), cut))
    } else {
        proof {
            assert forall|ps: Seq<Seq<char>>, c: bool|
                #![trigger file_list_bytes(ps), drop_effect_bytes(c)]
                listable(ps) && holds(*file_list, file_list_bytes(ps)) && holds(*drop_effect, drop_effect_bytes(c))
                implies false by {
                lemma_file_list_roundtrip(ps);
            }
        }
        Some((FileNames::Narrow(narrow_texts(&texts)), cut))
    }
}

/// The units of a fixed-size buffer that the system filled with a zero-terminated text:
/// those before the first zero, or all of them when there is none.
pub open spec fn until_nul(units: Seq<u16>) -> Seq<u16> {
    if first_zero(units) < 0 {
        units
    } else {
        units.take(first_zero(units))
    }
}

/// The text in a buffer that the system filled with a zero-terminated UTF-16 text (see
/// `until_nul`), decoded as `String::from_utf16_lossy` does.
pub fn text_before_nul(units: &Vec<u16>) -> (text: String)
    ensures
        text@ == utf16_lossy(until_nul(units@)),
        forall|t: Seq<char>| until_nul(units@) == utf16_of(t) ==> text@ == t,
{
    let mut end: usize = 0;
    while end < units.len() && units[end] != 0
        invariant
            end <= units@.len(),
            forall|j: int| 0 <= j < end ==> units@[j] != 0,
        decreases units@.len() - end,
    {
        end = end + 1;
    }
    let mut head: Vec<u16> = Vec::new();
    let mut k: usize = 0;
    while k < end
        invariant
            end <= units@.len(),
            k <= end,
            head@ =~= units@.take(k as int),
        decreases end - k,
    {
        head.push(units[k]);
        k = k + 1;
    }
    proof {
        if end < units@.len() {
            lemma_first_zero_at(units@, end as int);
        } else {
            lemma_first_zero_none(units@);
            assert(units@.take(end as int) =~= units@);
        }
        assert(head@ == until_nul(units@));
    }
    string_from_utf16_lossy(head.as_slice())
}

/// Which drop effects mean a cut: exactly the one whose first four bytes are 2, 0, 0, 0
/// (`DROPEFFECT_MOVE`, little-endian). A copy (1), a copy-or-link as Explorer writes it
/// (5), any other value, data shorter than four bytes, or no data at all mean a copy.
pub proof fn lemma_cut_only_on_move(effect: Option<Vec<u8>>)
    ensures
        effect_is_cut(effect) <==> (effect matches Some(b) && b@.len() >= 4 && b@[0] == 2 && b@[1] == 0
            && b@[2] == 0 && b@[3] == 0),
{
}

} // verus!
