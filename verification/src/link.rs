//! Decisions of the host's serial link: reading back cover blocks, and the
//! placement constants of the metadata area.
use vstd::prelude::*;
use crate::graphics::{LYRIC_BITMAP_HEIGHT, LYRIC_BITMAP_LINES, LYRIC_BITMAP_Y};
use crate::wire::{frame, from_le16, from_le32, le32, lemma_le16_round_trip, lemma_le32_round_trip};
use crate::protocol::{
    block_count, block_first_row, block_height, cover_block_payload, cover_is_sendable,
    cover_size_fits, packet_code, rgb565_bytes, PacketType,
};

verus! {

/// Left edge of the cleared metadata area.
pub const META_CLEAR_X: u16 = 320;
/// Top edge of the cleared metadata area.
pub const META_CLEAR_Y: u16 = 0;
/// Width of the cleared metadata area.
pub const META_CLEAR_W: u16 = 480;
/// Height of the cleared metadata area.
pub const META_CLEAR_H: u16 = 115;
/// Left edge at which metadata text is laid out.
pub const META_BASE_X: i16 = 360;
/// How long lyric updates are ignored after the lyric jumped backwards to the
/// start of a song, in milliseconds.
pub const LYRIC_BACKTRACK_SUPPRESS_MS: u64 = 3200;

/// What a cover block packet says about itself.
#[derive(Clone, Copy, PartialEq, Eq, Debug, Structural)]
pub struct CoverBlockInfo {
    pub width: u16,
    pub height: u16,
    pub chunk_y: u16,
    pub chunk_h: u16,
}

/// What a packet says about itself if it is a complete cover block packet: at
/// least 18 bytes, type 7, a payload length of at least 11 that the packet holds
/// in full with its checksum.
pub open spec fn cover_block_info(p: Seq<u8>) -> Option<CoverBlockInfo> {
    if p.len() < 18 || p[2] != packet_code(PacketType::CoverRgb565Block) {
        None
    } else {
        let n = from_le32(p[3], p[4], p[5], p[6]);
        if n < 11 || p.len() < 7 + n + 1 {
            None
        } else {
            Some(
                CoverBlockInfo {
                    width: from_le16(p[7], p[8]) as u16,
                    height: from_le16(p[9], p[10]) as u16,
                    chunk_y: from_le16(p[14], p[15]) as u16,
                    chunk_h: from_le16(p[16], p[17]) as u16,
                },
            )
        }
    }
}

fn read_le16(lo: u8, hi: u8) -> (v: u16)
    ensures
        v == from_le16(lo, hi),
{
    lo as u16 + 256 * (hi as u16)
}

/// Reads the header of a cover block packet, if `packet` is one.
pub fn parse_cover_block_info(packet: &[u8]) -> (info: Option<CoverBlockInfo>)
    ensures
        info == cover_block_info(packet@),
{
    if packet.len() < 18 || packet[2] != PacketType::CoverRgb565Block.code() {
        return None;
    }
    let payload_len: u64 = packet[3] as u64 + 256 * (packet[4] as u64) + 65536 * (packet[5] as u64)
        + 16777216 * (packet[6] as u64);
    if payload_len < 11 || (packet.len() as u64) - 8 < payload_len {
        return None;
    }
    Some(
        CoverBlockInfo {
            width: read_le16(packet[7], packet[8]),
            height: read_le16(packet[9], packet[10]),
            chunk_y: read_le16(packet[14], packet[15]),
            chunk_h: read_le16(packet[16], packet[17]),
        },
    )
}

proof fn lemma_rgb565_bytes_len(data: Seq<u8>, from: int, count: nat)
    ensures
        rgb565_bytes(data, from, count).len() == 2 * count,
    decreases count,
{
    if count > 0 {
        lemma_rgb565_bytes_len(data, from, (count - 1) as nat);
    }
}

/// Every block packet of a cover reads back as the cover's size, the block's
/// first row and its row count (each truncated to 16 bits), provided its
/// payload length fits the 32-bit length field.
pub proof fn cover_block_round_trip(matrix: crate::graphics::ImageMatrix, k: int)
    requires
        cover_size_fits(matrix),
        cover_is_sendable(matrix),
        0 <= k < block_count(matrix.height as nat),
        11 + 2 * (block_height(matrix.height as nat, k) * matrix.width) <= u32::MAX,
    ensures
        cover_block_info(frame(packet_code(PacketType::CoverRgb565Block), cover_block_payload(matrix, k)))
            == Some(
            CoverBlockInfo {
                width: matrix.width as u16,
                height: matrix.height as u16,
                chunk_y: block_first_row(k) as u16,
                chunk_h: block_height(matrix.height as nat, k) as u16,
            },
        ),
{
    let w = matrix.width as int;
    let ch = block_height(matrix.height as nat, k);
    let y0 = block_first_row(k);
    assert(ch >= 1);
    assert(ch * w >= 0) by (nonlinear_arith)
        requires
            ch >= 1,
            w >= 0,
    ;
    let pixels = rgb565_bytes(matrix.rgb_data@, y0 * w, (ch * w) as nat);
    lemma_rgb565_bytes_len(matrix.rgb_data@, y0 * w, (ch * w) as nat);
    let payload = cover_block_payload(matrix, k);
    assert(payload.len() == 11 + 2 * (ch * w));
    let n = payload.len() as u32;
    lemma_le32_round_trip(n);
    lemma_le16_round_trip(matrix.width as u16);
    lemma_le16_round_trip(matrix.height as u16);
    lemma_le16_round_trip(y0 as u16);
    lemma_le16_round_trip(ch as u16);
    let p = frame(packet_code(PacketType::CoverRgb565Block), payload);
    assert(p.len() == 8 + payload.len());
    assert(p[2] == 7);
    assert(p[3] == le32(n)[0] && p[4] == le32(n)[1] && p[5] == le32(n)[2] && p[6] == le32(n)[3]);
    assert(p[7] == payload[0] && p[8] == payload[1] && p[9] == payload[2] && p[10] == payload[3]);
    assert(p[14] == payload[7] && p[15] == payload[8] && p[16] == payload[9] && p[17] == payload[10]);
}

/// A request sent by the display board over the serial link.
#[derive(Clone, Copy, PartialEq, Eq, Debug, Structural)]
pub enum HwEvent {
    /// A button: `P` play/pause, `L` previous track, `N` next track.
    Command(u8),
    /// Seek to this permille of the track.
    Seek(u16),
    /// A tap on the lyric area at this panel row.
    LyricClick(u16),
}

/// Decoder of the byte stream the display board sends: single-byte commands,
/// and `S` or `C` followed by a little-endian 16-bit argument.
#[derive(Clone, Copy, PartialEq, Eq, Debug, Structural)]
pub struct HwDecoder {
    /// 0 idle, 1 and 2 reading a seek argument, 3 and 4 reading a click argument.
    pub rx_state: u8,
    pub seek_permille: u16,
    pub click_y: u16,
}

/// The decoder after byte `b`, and the request `b` completes, if any.
pub open spec fn hw_step(d: HwDecoder, b: u8) -> (HwDecoder, Option<HwEvent>) {
    if d.rx_state == 1 {
        (HwDecoder { rx_state: 2, seek_permille: b as u16, ..d }, None)
    } else if d.rx_state == 2 {
        let v = (d.seek_permille | ((b as u16) << 8u16)) as u16;
        (HwDecoder { rx_state: 0, seek_permille: v, ..d }, Some(HwEvent::Seek(v)))
    } else if d.rx_state == 3 {
        (HwDecoder { rx_state: 4, click_y: b as u16, ..d }, None)
    } else if d.rx_state == 4 {
        let v = (d.click_y | ((b as u16) << 8u16)) as u16;
        (HwDecoder { rx_state: 0, click_y: v, ..d }, Some(HwEvent::LyricClick(v)))
    } else if b == 0x50 || b == 0x4C || b == 0x4E {
        (d, Some(HwEvent::Command(b)))
    } else if b == 0x53 {
        (HwDecoder { rx_state: 1, ..d }, None)
    } else if b == 0x43 {
        (HwDecoder { rx_state: 3, ..d }, None)
    } else {
        (d, None)
    }
}

/// The decoder after all of `bytes`, and the requests they complete, in order.
pub open spec fn hw_run(d: HwDecoder, bytes: Seq<u8>) -> (HwDecoder, Seq<HwEvent>)
    decreases bytes.len(),
{
    if bytes.len() == 0 {
        (d, Seq::empty())
    } else {
        let (d1, e) = hw_run(d, bytes.drop_last());
        let (d2, o) = hw_step(d1, bytes.last());
        (d2, match o {
            Some(ev) => e.push(ev),
            None => e,
        })
    }
}

impl HwDecoder {
    /// An idle decoder.
    pub fn new() -> (d: HwDecoder)
        ensures
            d == (HwDecoder { rx_state: 0, seek_permille: 0, click_y: 0 }),
    {
        HwDecoder { rx_state: 0, seek_permille: 0, click_y: 0 }
    }

    /// Takes one byte from the board; returns the request it completes, if any.
    pub fn feed(&mut self, b: u8) -> (event: Option<HwEvent>)
        ensures
            (*final(self), event) == hw_step(*old(self), b),
    {
        if self.rx_state == 1 {
            self.seek_permille = b as u16;
            self.rx_state = 2;
            None
        } else if self.rx_state == 2 {
            self.seek_permille = self.seek_permille | ((b as u16) << 8u16);
            self.rx_state = 0;
            Some(HwEvent::Seek(self.seek_permille))
        } else if self.rx_state == 3 {
            self.click_y = b as u16;
            self.rx_state = 4;
            None
        } else if self.rx_state == 4 {
            self.click_y = self.click_y | ((b as u16) << 8u16);
            self.rx_state = 0;
            Some(HwEvent::LyricClick(self.click_y))
        } else if b == 0x50 || b == 0x4C || b == 0x4E {
            Some(HwEvent::Command(b))
        } else if b == 0x53 {
            self.rx_state = 1;
            None
        } else if b == 0x43 {
            self.rx_state = 3;
            None
        } else {
            None
        }
    }

    /// Takes a run of bytes from the board; returns the requests they complete, in order.
    pub fn feed_bytes(&mut self, bytes: &[u8]) -> (events: Vec<HwEvent>)
        ensures
            (*final(self), events@) == hw_run(*old(self), bytes@),
    {
        let ghost start = *self;
        let mut events: Vec<HwEvent> = Vec::new();
        let mut i: usize = 0;
        while i < bytes.len()
            invariant
                i <= bytes.len(),
                (*self, events@) == hw_run(start, bytes@.take(i as int)),
            decreases bytes.len() - i,
        {
            assert(bytes@.take(i + 1).drop_last() == bytes@.take(i as int));
            if let Some(ev) = self.feed(bytes[i]) {
                events.push(ev);
            }
            i = i + 1;
        }
        assert(bytes@.take(i as int) == bytes@);
        events
    }
}

/// Feeding the board's bytes in two reads gives the same decoder and the same
/// requests, in order, as feeding them in one: the decoder does not depend on
/// how the serial stream is split into reads.
pub proof fn split_reads_decode_alike(d: HwDecoder, first: Seq<u8>, second: Seq<u8>)
    ensures
        hw_run(d, first + second).0 == hw_run(hw_run(d, first).0, second).0,
        hw_run(d, first + second).1 == hw_run(d, first).1 + hw_run(hw_run(d, first).0, second).1,
    decreases second.len(),
{
    let mid = hw_run(d, first);
    if second.len() == 0 {
        assert(first + second =~= first);
        assert(mid.1 + Seq::<HwEvent>::empty() =~= mid.1);
    } else {
        let all = first + second;
        assert(all.drop_last() =~= first + second.drop_last());
        assert(all.last() == second.last());
        split_reads_decode_alike(d, first, second.drop_last());
        let inner = hw_run(mid.0, second.drop_last());
        let (d2, o) = hw_step(inner.0, second.last());
        match o {
            Some(ev) => {
                assert(mid.1 + inner.1.push(ev) =~= (mid.1 + inner.1).push(ev));
            },
            None => {},
        }
    }
}

/// `S`, then two argument bytes, from an idle decoder: a seek to their little-endian value.
pub proof fn seek_request_decodes(d: HwDecoder, lo: u8, hi: u8)
    requires
        d.rx_state == 0,
    ensures
        hw_run(d, seq![0x53u8, lo, hi]).1 == seq![HwEvent::Seek((lo + 256 * hi) as u16)],
        hw_run(d, seq![0x53u8, lo, hi]).0.rx_state == 0,
{
    let s = seq![0x53u8, lo, hi];
    reveal_with_fuel(hw_run, 4);
    assert(s.drop_last() == seq![0x53u8, lo]);
    assert(s.drop_last().drop_last() == seq![0x53u8]);
    assert(s.drop_last().drop_last().drop_last() == Seq::<u8>::empty());
    assert(((lo as u16) | ((hi as u16) << 8u16)) as int == lo + 256 * hi) by (bit_vector);
}

/// `C`, then two argument bytes, from an idle decoder: a click at their little-endian value.
pub proof fn click_request_decodes(d: HwDecoder, lo: u8, hi: u8)
    requires
        d.rx_state == 0,
    ensures
        hw_run(d, seq![0x43u8, lo, hi]).1 == seq![HwEvent::LyricClick((lo + 256 * hi) as u16)],
        hw_run(d, seq![0x43u8, lo, hi]).0.rx_state == 0,
{
    let s = seq![0x43u8, lo, hi];
    reveal_with_fuel(hw_run, 4);
    assert(s.drop_last() == seq![0x43u8, lo]);
    assert(s.drop_last().drop_last() == seq![0x43u8]);
    assert(s.drop_last().drop_last().drop_last() == Seq::<u8>::empty());
    assert(((lo as u16) | ((hi as u16) << 8u16)) as int == lo + 256 * hi) by (bit_vector);
}

/// The lyric line under panel row `y`: the lyric area is split into 11 equal bands.
pub open spec fn lyric_line_at_spec(y: u16) -> Option<usize> {
    if 115 <= y < 420 {
        let i = (y - 115) * 11 / 305;
        Some(
            if i < 10 {
                i as usize
            } else {
                10
            },
        )
    } else {
        None
    }
}

/// Index of the lyric line shown at panel row `y`, if `y` is inside the lyric area.
pub fn lyric_line_at(y: u16) -> (index: Option<usize>)
    ensures
        index == lyric_line_at_spec(y),
{
    if y >= LYRIC_BITMAP_Y && y < LYRIC_BITMAP_Y + LYRIC_BITMAP_HEIGHT {
        let i: usize = (y - LYRIC_BITMAP_Y) as usize * LYRIC_BITMAP_LINES / LYRIC_BITMAP_HEIGHT as usize;
        Some(
            if i < LYRIC_BITMAP_LINES - 1 {
                i
            } else {
                LYRIC_BITMAP_LINES - 1
            },
        )
    } else {
        None
    }
}

/// The decimal digit character for `d` below 10.
pub open spec fn digit_char(d: nat) -> char {
    ((48 + d) as u32) as char
}

/// Decimal numeral of `n`, without leading zeros.
pub open spec fn decimal(n: nat) -> Seq<char>
    decreases n,
{
    if n < 10 {
        seq![digit_char(n)]
    } else {
        decimal(n / 10).push(digit_char(n % 10))
    }
}

/// Decimal numeral of `n` with at least two digits.
pub open spec fn two_digits(n: nat) -> Seq<char> {
    if n < 10 {
        seq!['0', digit_char(n)]
    } else {
        decimal(n)
    }
}

/// A playback time as shown on the panel: minutes and seconds, each with at
/// least two digits, separated by a colon.
pub open spec fn clock_text(seconds: nat) -> Seq<char> {
    two_digits(seconds / 60) + seq![':'] + two_digits(seconds % 60)
}

fn push_decimal(out: &mut Vec<char>, n: u64)
    ensures
        final(out)@ == old(out)@ + decimal(n as nat),
    decreases n,
{
    if n >= 10 {
        push_decimal(out, n / 10);
    }
    let d = (n % 10) as u32;
    let c = char_from_digit(d);
    out.push(c);
    assert(final(out)@ =~= old(out)@ + decimal(n as nat)) by {
        if n >= 10 {
            assert(decimal(n as nat) == decimal((n / 10) as nat).push(digit_char((n % 10) as nat)));
        }
    }
}

fn char_from_digit(d: u32) -> (c: char)
    requires
        d < 10,
    ensures
        c == digit_char(d as nat),
{
    if d == 0 {
        '0'
    } else if d == 1 {
        '1'
    } else if d == 2 {
        '2'
    } else if d == 3 {
        '3'
    } else if d == 4 {
        '4'
    } else if d == 5 {
        '5'
    } else if d == 6 {
        '6'
    } else if d == 7 {
        '7'
    } else if d == 8 {
        '8'
    } else {
        '9'
    }
}

/// Formats a playback time in seconds as `mm:ss`.
pub fn format_clock(seconds: u64) -> (text: String)
    ensures
        text@ == clock_text(seconds as nat),
{
    let mut out: Vec<char> = Vec::new();
    let minutes = seconds / 60;
    let secs = seconds % 60;
    if minutes < 10 {
        out.push('0');
    }
    push_decimal(&mut out, minutes);
    out.push(':');
    if secs < 10 {
        out.push('0');
    }
    push_decimal(&mut out, secs);
    assert(out@ =~= clock_text(seconds as nat));
    crate::text::string_from_chars(&out)
}


/// One credit of a song: the primary field when it is there and not empty, else
/// the alternative field, else `-`.
pub open spec fn credit(primary: Option<Seq<char>>, alternative: Option<Seq<char>>) -> Seq<char> {
    let p = match primary {
        Some(v) => v,
        None => Seq::empty(),
    };
    if p.len() > 0 {
        p
    } else {
        match alternative {
            Some(v) => v,
            None => seq!['-'],
        }
    }
}

/// The view of an optional string.
pub open spec fn opt_view(s: Option<String>) -> Option<Seq<char>> {
    match s {
        Some(v) => Some(v@),
        None => None,
    }
}

fn pick_credit(primary: &Option<String>, alternative: &Option<String>) -> (out: String)
    ensures
        out@ == credit(opt_view(*primary), opt_view(*alternative)),
{
    match primary {
        Some(p) => {
            if p.unicode_len() > 0 {
                return p.clone();
            }
        },
        None => {},
    }
    match alternative {
        Some(a) => a.clone(),
        None => {
            let dash = String::from_str("-");
            proof {
                reveal_strlit("-");
            }
            dash
        },
    }
}

/// The second metadata line of a song: its artist and its album, each taken from
/// the song's first listing and else from its alternative one, joined by ` - `.
pub fn song_credits(
    artist: &Option<String>,
    artist_alt: &Option<String>,
    album: &Option<String>,
    album_alt: &Option<String>,
) -> (line: String)
    ensures
        line@ == credit(opt_view(*artist), opt_view(*artist_alt)) + seq![' ', '-', ' ']
            + credit(opt_view(*album), opt_view(*album_alt)),
{
    let mut line = pick_credit(artist, artist_alt);
    let al = pick_credit(album, album_alt);
    line.append(" - ");
    proof {
        reveal_strlit(" - ");
    }
    line.append(al.as_str());
    line
}


/// A packet queued for the board: plain data, or a packet tagged with the song
/// generation it was made for, which goes stale once another song starts.
pub enum SerialPacket {
    Data(Vec<u8>),
    Tagged { generation: u64, packet: Vec<u8> },
}

/// What is sent for a queued item while `current` is the song generation: a
/// data packet, or a tagged packet of the current song; nothing for a tagged
/// packet of an earlier song (it is dropped).
pub open spec fn sendable(item: SerialPacket, current: u64) -> Option<Vec<u8>> {
    match item {
        SerialPacket::Data(packet) => Some(packet),
        SerialPacket::Tagged { generation, packet } => if generation == current {
            Some(packet)
        } else {
            None
        },
    }
}

/// Takes the next item off the board's queue: the packet to send, or `None`
/// when the item is a stale packet of an earlier song, to be skipped.
pub fn packet_to_send(item: SerialPacket, current_generation: u64) -> (out: Option<Vec<u8>>)
    ensures
        out == sendable(item, current_generation),
{
    match item {
        SerialPacket::Data(packet) => Some(packet),
        SerialPacket::Tagged { generation, packet } => {
            if generation == current_generation {
                Some(packet)
            } else {
                None
            }
        },
    }
}

} // verus!
