use vstd::prelude::*;
use vstd::string::StrSliceExecFns;
use crate::fmt::all_digits;
use crate::fmt::digits_val;
use crate::fmt::is_digit_char;
use crate::fmt::lemma_digits_val_upper;
use crate::fmt::pow10;

verus! {

/// One play item of the playlist: a segment descriptor with its clip id,
/// codec tag and valid playback range in 45 kHz ticks.
#[derive(Debug)]
pub struct PlayItem {
    pub id: u16,
    pub codec: String,
    pub in_time: u32,
    pub out_time: u32,
}

/// The mathematical image of a play item: the codec tag as a character
/// sequence, everything else verbatim.
pub ghost struct PlayItemV {
    pub id: u16,
    pub codec: Seq<char>,
    pub in_time: u32,
    pub out_time: u32,
}

impl View for PlayItem {
    type V = PlayItemV;

    open spec fn view(&self) -> PlayItemV {
        PlayItemV { id: self.id, codec: self.codec@, in_time: self.in_time, out_time: self.out_time }
    }
}

/// One mark of the mark table.  Only marks of type 1 (chapter marks)
/// matter to the timeline; the rest ride along.
#[derive(Clone, Copy, Debug, PartialEq, Eq, Structural)]
pub struct Mark {
    pub mark_type: u8,
    pub segment_ref: u16,
    pub timestamp: u32,
}

/// Everything the reader extracts from a playlist file.  A malformed
/// signature or version tag is a warning, not an abort, so it comes back
/// as `header_ok == false` beside the tables.
#[derive(Debug)]
pub struct Playlist {
    pub items: Vec<PlayItem>,
    pub marks: Vec<Mark>,
    pub header_ok: bool,
}

/// The mathematical image of a playlist.
pub ghost struct PlaylistV {
    pub items: Seq<PlayItemV>,
    pub marks: Seq<Mark>,
    pub header_ok: bool,
}

impl View for Playlist {
    type V = PlaylistV;

    open spec fn view(&self) -> PlaylistV {
        PlaylistV {
            items: self.items@.map_values(|p: PlayItem| p@),
            marks: self.marks@,
            header_ok: self.header_ok,
        }
    }
}

/// Why a read aborted: bytes missing for a declared field, a clip id that
/// is not a number in range, or a record length shorter than the fixed
/// fields it must hold.
#[derive(Clone, Copy, Debug, PartialEq, Eq, Structural)]
pub enum ReadError {
    Truncated,
    InvalidClipId,
    InvalidRecordLength,
}

/// A big-endian 16-bit integer at `i`.
pub open spec fn be16(b: Seq<u8>, i: int) -> int
    recommends
        0 <= i,
        i + 2 <= b.len(),
{
    b[i] * 0x100 + b[i + 1]
}

/// A big-endian 32-bit integer at `i`.
pub open spec fn be32(b: Seq<u8>, i: int) -> int
    recommends
        0 <= i,
        i + 4 <= b.len(),
{
    b[i] * 0x1000000 + b[i + 1] * 0x10000 + b[i + 2] * 0x100 + b[i + 3]
}

/// The bytes with every leading NUL removed.
pub open spec fn trim_nul(s: Seq<u8>) -> Seq<u8>
    decreases s.len(),
{
    if s.len() > 0 && s[0] == 0 {
        trim_nul(s.drop_first())
    } else {
        s
    }
}

/// Bytes read as characters, one for one.
pub open spec fn bytes_to_chars(s: Seq<u8>) -> Seq<char> {
    Seq::new(s.len(), |i: int| s[i] as char)
}

/// Leading NULs are removed and nothing else: the trimmed sequence is the
/// suffix that starts at the first non-NUL byte.
pub proof fn lemma_trim_nul(s: Seq<u8>, k: int)
    requires
        0 <= k <= s.len(),
        forall|j: int| 0 <= j < k ==> s[j] == 0,
        k < s.len() ==> s[k] != 0,
    ensures
        trim_nul(s) == s.skip(k),
    decreases k,
{
    if k == 0 {
        assert(s.skip(0) =~= s);
    } else {
        lemma_trim_nul(s.drop_first(), k - 1);
        assert(s.drop_first().skip(k - 1) =~= s.skip(k));
    }
}

/// The signature is `MPLS` and the version is one of the three recognized
/// tags `0100`, `0200`, `0300`.
pub open spec fn header_valid(b: Seq<u8>) -> bool
    recommends
        b.len() >= 8,
{
    b[0] == 0x4d && b[1] == 0x50 && b[2] == 0x4c && b[3] == 0x53 && b[4] == 0x30 && (b[5] == 0x31
        || b[5] == 0x32 || b[5] == 0x33) && b[6] == 0x30 && b[7] == 0x30
}

/// One play-item record at `pos`: a two-byte length prefix `l`, then 20
/// bytes of fixed fields, then `l - 20` skipped tail bytes.  The clip id
/// is five bytes of zero-padded ASCII decimal, NUL-trimmed.
pub open spec fn spec_read_play_item(b: Seq<u8>, pos: int) -> Result<(PlayItemV, int), ReadError> {
    if pos + 2 > b.len() {
        Err(ReadError::Truncated)
    } else {
        let l = be16(b, pos);
        if l < 20 {
            Err(ReadError::InvalidRecordLength)
        } else if pos + 2 + l > b.len() {
            Err(ReadError::Truncated)
        } else {
            let clip = bytes_to_chars(trim_nul(b.subrange(pos + 2, pos + 7)));
            if clip.len() == 0 || !all_digits(clip) || digits_val(clip) > u16::MAX {
                Err(ReadError::InvalidClipId)
            } else {
                Ok(
                    (
                        PlayItemV {
                            id: digits_val(clip) as u16,
                            codec: bytes_to_chars(trim_nul(b.subrange(pos + 7, pos + 11))),
                            in_time: be32(b, pos + 14) as u32,
                            out_time: be32(b, pos + 18) as u32,
                        },
                        pos + 2 + l,
                    ),
                )
            }
        }
    }
}

/// `n` consecutive play-item records starting at `pos`.
pub open spec fn spec_read_play_items(b: Seq<u8>, pos: int, n: nat) -> Result<
    (Seq<PlayItemV>, int),
    ReadError,
>
    decreases n,
{
    if n == 0 {
        Ok((Seq::empty(), pos))
    } else {
        match spec_read_play_item(b, pos) {
            Err(e) => Err(e),
            Ok(ip) => match spec_read_play_items(b, ip.1, (n - 1) as nat) {
                Err(e) => Err(e),
                Ok(rp) => Ok((seq![ip.0] + rp.0, rp.1)),
            },
        }
    }
}

/// A successful read of `n` records yields exactly `n` items.
pub proof fn lemma_play_items_count(b: Seq<u8>, pos: int, n: nat)
    requires
        spec_read_play_items(b, pos, n) is Ok,
    ensures
        spec_read_play_items(b, pos, n).unwrap().0.len() == n,
    decreases n,
{
    if n > 0 {
        let ip = spec_read_play_item(b, pos).unwrap();
        lemma_play_items_count(b, ip.1, (n - 1) as nat);
    }
}

/// `n` mark records of 14 bytes each starting at `pos`: a reserved byte,
/// the mark type, the play-item reference, the timestamp, then six
/// reserved bytes.
pub open spec fn spec_read_marks(b: Seq<u8>, pos: int, n: nat) -> Result<Seq<Mark>, ReadError> {
    if pos + 14 * n > b.len() {
        Err(ReadError::Truncated)
    } else {
        Ok(
            Seq::new(
                n,
                |i: int|
                    Mark {
                        mark_type: b[pos + 14 * i + 1],
                        segment_ref: be16(b, pos + 14 * i + 2) as u16,
                        timestamp: be32(b, pos + 14 * i + 4) as u32,
                    },
            ),
        )
    }
}

/// The whole playlist: a 20-byte header giving the two section offsets,
/// the play-item table at the first, the mark table at the second.
pub open spec fn spec_parse_playlist(b: Seq<u8>) -> Result<PlaylistV, ReadError> {
    if b.len() < 20 {
        Err(ReadError::Truncated)
    } else {
        let play_start = be32(b, 8);
        let mark_start = be32(b, 12);
        if play_start + 10 > b.len() {
            Err(ReadError::Truncated)
        } else {
            match spec_read_play_items(b, play_start + 10, be16(b, play_start + 6) as nat) {
                Err(e) => Err(e),
                Ok(ip) => {
                    if mark_start + 6 > b.len() {
                        Err(ReadError::Truncated)
                    } else {
                        match spec_read_marks(b, mark_start + 6, be16(b, mark_start + 4) as nat) {
                            Err(e) => Err(e),
                            Ok(marks) => Ok(
                                PlaylistV { items: ip.0, marks, header_ok: header_valid(b) },
                            ),
                        }
                    }
                },
            }
        }
    }
}

/// Reads a big-endian 16-bit integer.
fn read_u16_be(b: &Vec<u8>, pos: usize) -> (r: u16)
    requires
        pos + 2 <= b.len(),
    ensures
        r == be16(b@, pos as int),
{
    (b[pos] as u16) * 0x100 + (b[pos + 1] as u16)
}

/// Reads a big-endian 32-bit integer.
fn read_u32_be(b: &Vec<u8>, pos: usize) -> (r: u32)
    requires
        pos + 4 <= b.len(),
    ensures
        r == be32(b@, pos as int),
{
    (b[pos] as u32) * 0x1000000 + (b[pos + 1] as u32) * 0x10000 + (b[pos + 2] as u32) * 0x100 + (
    b[pos + 3] as u32)
}

/// Reads one play-item record, yielding the item and the position just
/// past the record's skipped tail.
#[verifier::loop_isolation(false)]
fn parse_play_item(b: &Vec<u8>, pos: usize) -> (r: Result<(PlayItem, usize), ReadError>)
    requires
        pos <= b.len(),
    ensures
        match spec_read_play_item(b@, pos as int) {
            Ok(ip) => r is Ok && r.unwrap().0@ == ip.0 && r.unwrap().1 == ip.1,
            Err(e) => r is Err && r.unwrap_err() == e,
        },
{
    let n = b.len();
    if n - pos < 2 {
        return Err(ReadError::Truncated);
    }
    let l = read_u16_be(b, pos);
    if l < 20 {
        return Err(ReadError::InvalidRecordLength);
    }
    if n - (pos + 2) < l as usize {
        return Err(ReadError::Truncated);
    }
    let ghost clip_bytes = b@.subrange(pos as int + 2, pos as int + 7);
    let mut k: usize = 0;
    while k < 5 && b[pos + 2 + k] == 0
        invariant
            k <= 5,
            forall|j: int| 0 <= j < k ==> clip_bytes[j] == 0,
        decreases 5 - k,
    {
        k = k + 1;
    }
    proof {
        lemma_trim_nul(clip_bytes, k as int);
    }
    let ghost clip = bytes_to_chars(trim_nul(clip_bytes));
    if k == 5 {
        assert(clip.len() == 0);
        return Err(ReadError::InvalidClipId);
    }
    let mut value: u32 = 0;
    let mut j: usize = k;
    while j < 5
        invariant
            k <= j <= 5,
            all_digits(clip.take(j - k)),
            value == digits_val(clip.take(j - k)),
        decreases 5 - j,
    {
        let d = b[pos + 2 + j];
        assert(clip[j - k] == d as char);
        if d < 48 || d > 57 {
            assert(!is_digit_char(clip[j - k]));
            return Err(ReadError::InvalidClipId);
        }
        assert(clip.take(j - k + 1).drop_last() =~= clip.take(j - k));
        assert(all_digits(clip.take(j - k + 1)));
        proof {
            lemma_digits_val_upper(clip.take(j - k));
            assert(pow10(4) == 10000) by {
                reveal_with_fuel(pow10, 5);
            };
            crate::fmt::lemma_pow10_add(j - k, 4 - (j - k));
            crate::fmt::lemma_pow10_pos(j - k);
            crate::fmt::lemma_pow10_pos(4 - (j - k));
            assert(pow10(j - k) <= 10000) by (nonlinear_arith)
                requires
                    pow10(j - k) * pow10(4 - (j - k)) == pow10(4),
                    pow10(4) == 10000,
                    pow10(j - k) >= 1,
                    pow10(4 - (j - k)) >= 1,
            ;
        }
        value = value * 10 + (d - 48) as u32;
        j = j + 1;
    }
    assert(clip.take(5 - k) =~= clip);
    if value > 65535 {
        return Err(ReadError::InvalidClipId);
    }
    let ghost codec_bytes = b@.subrange(pos as int + 7, pos as int + 11);
    let mut ck: usize = 0;
    while ck < 4 && b[pos + 7 + ck] == 0
        invariant
            ck <= 4,
            forall|j2: int| 0 <= j2 < ck ==> codec_bytes[j2] == 0,
        decreases 4 - ck,
    {
        ck = ck + 1;
    }
    proof {
        lemma_trim_nul(codec_bytes, ck as int);
    }
    let mut codec = String::new();
    let mut ci = ck;
    while ci < 4
        invariant
            ck <= ci <= 4,
            codec@ =~= bytes_to_chars(trim_nul(codec_bytes)).take(ci - ck),
        decreases 4 - ci,
    {
        crate::fmt::push_char(&mut codec, b[pos + 7 + ci] as char);
        assert(codec@ =~= bytes_to_chars(trim_nul(codec_bytes)).take(ci + 1 - ck));
        ci = ci + 1;
    }
    assert(codec@ =~= bytes_to_chars(trim_nul(codec_bytes)));
    let in_time = read_u32_be(b, pos + 14);
    let out_time = read_u32_be(b, pos + 18);
    let item = PlayItem { id: value as u16, codec, in_time, out_time };
    Ok((item, pos + 2 + l as usize))
}

/// Reads the whole playlist out of an in-memory copy of the file: the
/// 20-byte header, the play-item table at the header's first offset, the
/// mark table at its second.  A wrong signature or version tag only
/// clears `header_ok`; missing bytes abort.
#[verifier::loop_isolation(false)]
pub fn parse_playlist(b: &Vec<u8>) -> (r: Result<Playlist, ReadError>)
    ensures
        match spec_parse_playlist(b@) {
            Ok(p) => r is Ok && r.unwrap()@ == p,
            Err(e) => r is Err && r.unwrap_err() == e,
        },
{
    let n = b.len();
    if n < 20 {
        return Err(ReadError::Truncated);
    }
    let header_ok = b[0] == 0x4d && b[1] == 0x50 && b[2] == 0x4c && b[3] == 0x53 && b[4] == 0x30
        && (b[5] == 0x31 || b[5] == 0x32 || b[5] == 0x33) && b[6] == 0x30 && b[7] == 0x30;
    assert(header_ok == header_valid(b@));
    let play_start = read_u32_be(b, 8) as usize;
    let mark_start = read_u32_be(b, 12) as usize;
    if play_start > n || n - play_start < 10 {
        return Err(ReadError::Truncated);
    }
    let n_items = read_u16_be(b, play_start + 6);
    let ghost gstart = play_start as int + 10;
    let mut items: Vec<PlayItem> = Vec::new();
    let mut pos: usize = play_start + 10;
    let mut k: u16 = 0;
    while k < n_items
        invariant
            k <= n_items,
            pos <= n,
            spec_read_play_items(b@, gstart, n_items as nat) == (match spec_read_play_items(
                b@,
                pos as int,
                (n_items - k) as nat,
            ) {
                Ok(rp) => Ok::<(Seq<PlayItemV>, int), ReadError>(
                    (items@.map_values(|p: PlayItem| p@) + rp.0, rp.1),
                ),
                Err(e) => Err::<(Seq<PlayItemV>, int), ReadError>(e),
            }),
        decreases n_items - k,
    {
        let ghost old_items = items@;
        let ghost old_pos = pos as int;
        let ghost rem = (n_items - k) as nat;
        match parse_play_item(b, pos) {
            Ok(ip) => {
                proof {
                    let sip = spec_read_play_item(b@, old_pos).unwrap();
                    assert(sip.1 <= b@.len());
                    let rem2 = (rem - 1) as nat;
                    if spec_read_play_items(b@, sip.1, rem2) is Ok {
                        let rp = spec_read_play_items(b@, sip.1, rem2).unwrap();
                        assert(old_items.map_values(|p: PlayItem| p@) + (seq![sip.0] + rp.0)
                            =~= old_items.map_values(|p: PlayItem| p@).push(sip.0) + rp.0);
                    }
                }
                items.push(ip.0);
                pos = ip.1;
                proof {
                    let sip = spec_read_play_item(b@, old_pos).unwrap();
                    assert(items@.map_values(|p: PlayItem| p@) =~= old_items.map_values(
                        |p: PlayItem| p@,
                    ).push(sip.0));
                }
            },
            Err(e) => {
                return Err(e);
            },
        }
        k = k + 1;
    }
    proof {
        assert(items@.map_values(|p: PlayItem| p@) + Seq::<PlayItemV>::empty()
            =~= items@.map_values(|p: PlayItem| p@));
    }
    if mark_start > n || n - mark_start < 6 {
        return Err(ReadError::Truncated);
    }
    let n_marks = read_u16_be(b, mark_start + 4);
    let mpos0: usize = mark_start + 6;
    if n - mpos0 < 14 * (n_marks as usize) {
        return Err(ReadError::Truncated);
    }
    let mut marks: Vec<Mark> = Vec::new();
    let mut mk: usize = 0;
    let ghost smarks = spec_read_marks(b@, mpos0 as int, n_marks as nat).unwrap();
    while mk < n_marks as usize
        invariant
            mk <= n_marks,
            marks@.len() == mk,
            forall|i: int| 0 <= i < mk ==> marks@[i] == smarks[i],
        decreases n_marks - mk,
    {
        let p: usize = mpos0 + 14 * mk;
        let mark = Mark {
            mark_type: b[p + 1],
            segment_ref: read_u16_be(b, p + 2),
            timestamp: read_u32_be(b, p + 4),
        };
        marks.push(mark);
        mk = mk + 1;
    }
    assert(marks@ =~= smarks);
    Ok(Playlist { items, marks, header_ok })
}

} // verus!
