//! The Source engine demo header: a fixed 1072-byte prefix.
//!
//! ```text
//! offset  size  field
//!      0     8  "HL2DEMO\0"
//!      8     4  demo protocol          (i32 LE)
//!     12     4  network protocol       (i32 LE)
//!     16   260  server name            (NUL-padded)
//!    276   260  client name            (the recorder, for a POV demo)
//!    536   260  map name
//!    796   260  game directory
//!   1056     4  playback time, seconds (f32 LE)
//!   1060     4  ticks                  (i32 LE)
//!   1064     4  frames                 (i32 LE)
//!   1068     4  sign-on length         (i32 LE)
//! ```
use crate::text::{dec, push_decimal, push_str, string_of};
use vstd::prelude::*;

verus! {

pub const HEADER_LEN: usize = 1072;

/// What a demo's header says. The playback time is kept as the bits of
/// its little-endian `f32`.
#[derive(Debug, Clone, PartialEq)]
pub struct DemoHeader {
    pub demo_protocol: i32,
    pub network_protocol: i32,
    pub server: String,
    pub recorder: String,
    pub map: String,
    pub game_dir: String,
    pub playback_bits: u32,
    pub ticks: i32,
    pub frames: i32,
}

/// The four bytes at `o`, little-endian, as an unsigned number.
pub open spec fn le_u32(b: Seq<u8>, o: int) -> int {
    b[o] + 256 * b[o + 1] + 65536 * b[o + 2] + 16777216 * b[o + 3]
}

/// The four bytes at `o`, little-endian, in two's complement.
pub open spec fn le_i32(b: Seq<u8>, o: int) -> int {
    let u = le_u32(b, o);
    if u >= 0x8000_0000 {
        u - 0x1_0000_0000
    } else {
        u
    }
}

/// The position of the first NUL byte in `f`, or its length.
pub open spec fn nul_at(f: Seq<u8>, k: int) -> int
    decreases f.len() - k,
{
    if k < 0 || k >= f.len() {
        f.len() as int
    } else if f[k] == 0 {
        k
    } else {
        nul_at(f, k + 1)
    }
}

/// The 260-byte name field at `o`, up to its first NUL, each byte one
/// character (Latin-1: server and player names are raw bytes).
pub open spec fn name_at(b: Seq<u8>, o: int) -> Seq<char> {
    let f = b.subrange(o, o + 260);
    f.take(nul_at(f, 0)).map_values(|x: u8| x as char)
}

pub open spec fn magic() -> Seq<u8> {
    seq![72u8, 76u8, 50u8, 68u8, 69u8, 77u8, 79u8, 0u8]
}

pub open spec fn truncated_message(n: nat) -> Seq<char> {
    "demo header truncated: "@ + dec(n) + " of 1072 bytes"@
}

fn u32_at(b: &[u8], o: usize) -> (r: u32)
    requires
        o + 4 <= b@.len(),
    ensures
        r == le_u32(b@, o as int),
{
    b[o] as u32 + 256 * (b[o + 1] as u32) + 65536 * (b[o + 2] as u32) + 16777216 * (b[o + 3] as u32)
}

fn i32_at(b: &[u8], o: usize) -> (r: i32)
    requires
        o + 4 <= b@.len(),
    ensures
        r == le_i32(b@, o as int),
{
    let u = u32_at(b, o);
    if u >= 0x8000_0000 {
        (u as i64 - 0x1_0000_0000i64) as i32
    } else {
        u as i32
    }
}

fn name_field(b: &[u8], o: usize) -> (r: String)
    requires
        o + 260 <= b@.len(),
    ensures
        r@ == name_at(b@, o as int),
{
    let ghost f = b@.subrange(o as int, o + 260);
    let mut out: Vec<char> = Vec::new();
    let n: usize = b.len();
    let mut k: usize = 0;
    while k < 260
        invariant_except_break
            nul_at(f, 0) == nul_at(f, k as int),
        invariant
            k <= 260,
            o + 260 <= b@.len(),
            n == b@.len(),
            f == b@.subrange(o as int, o + 260),
            out@ == f.take(k as int).map_values(|x: u8| x as char),
        ensures
            nul_at(f, 0) == k,
        decreases 260 - k,
    {
        let x = b[o + k];
        if x == 0 {
            break;
        }
        out.push(x as char);
        assert(f.take(k + 1).map_values(|x: u8| x as char) =~= f.take(k as int).map_values(
            |x: u8| x as char,
        ).push(f[k as int] as char));
        k += 1;
    }
    string_of(out.as_slice())
}

impl DemoHeader {
    /// The header at the front of a demo's bytes; a shorter prefix, or one
    /// without the `HL2DEMO` mark, is refused.
    pub fn parse(bytes: &[u8]) -> (r: Result<DemoHeader, String>)
        ensures
            bytes@.len() < 1072 ==> (r matches Err(m) && m@ == truncated_message(bytes@.len())),
            bytes@.len() >= 1072 && bytes@.take(8) != magic() ==> (r matches Err(m) && m@
                == "not a Source demo (bad magic)"@),
            bytes@.len() >= 1072 && bytes@.take(8) == magic() ==> (r matches Ok(h) && {
                &&& h.demo_protocol == le_i32(bytes@, 8)
                &&& h.network_protocol == le_i32(bytes@, 12)
                &&& h.server@ == name_at(bytes@, 16)
                &&& h.recorder@ == name_at(bytes@, 276)
                &&& h.map@ == name_at(bytes@, 536)
                &&& h.game_dir@ == name_at(bytes@, 796)
                &&& h.playback_bits == le_u32(bytes@, 1056)
                &&& h.ticks == le_i32(bytes@, 1060)
                &&& h.frames == le_i32(bytes@, 1064)
            }),
    {
        if bytes.len() < HEADER_LEN {
            let mut m: Vec<char> = Vec::new();
            push_str(&mut m, "demo header truncated: ");
            push_decimal(&mut m, bytes.len() as u64);
            push_str(&mut m, " of 1072 bytes");
            return Err(string_of(m.as_slice()));
        }
        let mark: [u8; 8] = [72, 76, 50, 68, 69, 77, 79, 0];
        let mut k: usize = 0;
        while k < 8
            invariant
                k <= 8,
                bytes@.len() >= 1072,
                mark@ == magic(),
                bytes@.take(k as int) == magic().take(k as int),
            decreases 8 - k,
        {
            if bytes[k] != mark[k] {
                assert(bytes@.take(8)[k as int] != magic()[k as int]);
                return Err(string_of_str("not a Source demo (bad magic)"));
            }
            assert(bytes@.take(k + 1) =~= magic().take(k + 1)) by {
                assert(bytes@.take(k as int) =~= magic().take(k as int));
            }
            k += 1;
        }
        assert(bytes@.take(8) =~= magic().take(8));
        assert(magic().take(8) =~= magic());
        Ok(DemoHeader {
            demo_protocol: i32_at(bytes, 8),
            network_protocol: i32_at(bytes, 12),
            server: name_field(bytes, 16),
            recorder: name_field(bytes, 276),
            map: name_field(bytes, 536),
            game_dir: name_field(bytes, 796),
            playback_bits: u32_at(bytes, 1056),
            ticks: i32_at(bytes, 1060),
            frames: i32_at(bytes, 1064),
        })
    }
}

fn string_of_str(s: &str) -> (r: String)
    ensures
        r@ == s@,
{
    let mut m: Vec<char> = Vec::new();
    push_str(&mut m, s);
    string_of(m.as_slice())
}

} // verus!
