use vstd::prelude::*;

verus! {

/// A note of the scale played by the tone generator.
#[derive(Clone, Copy, PartialEq, Eq, Structural)]
pub enum Scale {
    C4,
    D4,
    D4S,
    E4,
    F4,
    F4S,
    G4,
    G4S,
    A4,
    A4S,
    B4,
    C5,
    C5S,
    D5,
    D5S,
    E5,
}

/// The frequency of each note, in hertz.
pub open spec fn spec_hz(scale: Scale) -> u32 {
    match scale {
        Scale::C4 => 262,
        Scale::D4 => 294,
        Scale::D4S => 311,
        Scale::E4 => 330,
        Scale::F4 => 349,
        Scale::F4S => 370,
        Scale::G4 => 392,
        Scale::G4S => 415,
        Scale::A4 => 440,
        Scale::A4S => 466,
        Scale::B4 => 494,
        Scale::C5 => 523,
        Scale::C5S => 554,
        Scale::D5 => 587,
        Scale::D5S => 622,
        Scale::E5 => 659,
    }
}

impl Scale {
    /// The note's frequency in hertz.
    pub fn hz(self) -> (r: u32)
        ensures
            r == spec_hz(self),
    {
        match self {
            Scale::C4 => 262,
            Scale::D4 => 294,
            Scale::D4S => 311,
            Scale::E4 => 330,
            Scale::F4 => 349,
            Scale::F4S => 370,
            Scale::G4 => 392,
            Scale::G4S => 415,
            Scale::A4 => 440,
            Scale::A4S => 466,
            Scale::B4 => 494,
            Scale::C5 => 523,
            Scale::C5S => 554,
            Scale::D5 => 587,
            Scale::D5S => 622,
            Scale::E5 => 659,
        }
    }
}

/// A note of a score: its pitch, its length as a fraction `1/div` of a
/// whole note, and whether it is dotted (half as long again).
pub struct Note {
    pub scale: Scale,
    pub div: u32,
    pub dot: bool,
}

/// Output samples per second of the tone generator.
pub const MUSIC_OUTPUT_HZ: u32 = 100_000;

/// Tempo in beats (quarter notes) per minute.
pub const BPM: u32 = 60;

/// Full scale of the 16-bit output.
pub const DAC_MAX: u32 = 65535;

/// How many output samples a note lasts:
/// `OUTPUT_HZ * 60 * 4 / (BPM * div)`, times 3/2 when dotted, rounded down.
pub fn note_steps(note: &Note) -> (r: u32)
    requires
        note.div > 0,
        note.dot ==> BPM * note.div * 2 <= u32::MAX,
        !note.dot ==> BPM * note.div <= u32::MAX,
    ensures
        note.dot ==> r == (MUSIC_OUTPUT_HZ * 60 * 4 * 3) / (BPM * note.div * 2),
        !note.dot ==> r == (MUSIC_OUTPUT_HZ * 60 * 4) / (BPM * note.div),
{
    if note.dot {
        assert(BPM * note.div <= BPM * note.div * 2) by (nonlinear_arith)
            requires note.div > 0;
        (MUSIC_OUTPUT_HZ * 60 * 4 * 3) / (BPM * note.div * 2)
    } else {
        (MUSIC_OUTPUT_HZ * 60 * 4) / (BPM * note.div)
    }
}

/// The output level of a square wave of `hz` hertz at sample `count`: full
/// scale in the first half of each period, zero in the second.
pub fn square_level(count: u32, hz: u32) -> (r: u32)
    requires
        count * 2 <= u32::MAX,
        count * 2 * hz <= u32::MAX,
    ensures
        r == if ((count * 2 * hz) / (MUSIC_OUTPUT_HZ as int)) % 2 == 0 { DAC_MAX } else { 0 },
{
    if ((count * 2 * hz) / MUSIC_OUTPUT_HZ) % 2 == 0 { DAC_MAX } else { 0 }
}

/// The fixed-point clock divisor (integer part, 8-bit fraction) that makes a
/// state machine clocked at `sys_hz` step at `step_hz`.
pub fn clock_divisor(sys_hz: u32, step_hz: u32) -> (r: (u16, u8))
    requires
        step_hz > 0,
        (sys_hz % step_hz) * 256 <= u32::MAX,
    ensures
        r.0 == (sys_hz / step_hz) as u16,
        r.1 == (sys_hz % step_hz) * 256 / (step_hz as int),
{
    let whole = (sys_hz / step_hz) as u16;
    let rem = sys_hz % step_hz;
    assert(rem * 256 / (step_hz as int) < 256) by (nonlinear_arith)
        requires rem < step_hz, step_hz > 0;
    let frac = ((rem * 256) / step_hz) as u8;
    (whole, frac)
}

/// Output samples per second of the sine generator.
pub const DDS_OUTPUT_HZ: u32 = 2_000_000;

/// The phase increment per output sample that makes a 32-bit phase
/// accumulator run at `freq` hertz: `freq * 2^32 / DDS_OUTPUT_HZ`, cut to
/// 32 bits.
pub fn dds_step(freq: u32) -> (r: u32)
    ensures
        r == ((freq as int * 0x1_0000_0000) / (DDS_OUTPUT_HZ as int)) as u32,
{
    let shifted = (freq as u64) << 32;
    assert(shifted == freq as int * 0x1_0000_0000) by (bit_vector)
        requires shifted == (freq as u64) << 32;
    (shifted / DDS_OUTPUT_HZ as u64) as u32
}

/// A requested generator frequency clamped to 100..=200000 Hz.
pub open spec fn spec_clamp_freq(v: u32) -> u32 {
    if v > 200000 { 200000 } else if v < 100 { 100 } else { v }
}

/// Clamps a requested generator frequency to 100..=200000 Hz.
pub fn clamp_freq(v: u32) -> (r: u32)
    ensures
        r == spec_clamp_freq(v),
{
    let mut v = v;
    if v > 200000 {
        v = 200000;
    }
    if v < 100 {
        v = 100;
    }
    v
}

} // verus!
