use wave_viewer::command::{format_freq, greeting, parse_freq, CommandLine};
use wave_viewer::music::{
    clamp_freq, clock_divisor, dds_step, note_steps, square_level, Note, Scale, DAC_MAX,
};

fn parse(s: &str, current: u32) -> Option<u32> {
    let codes: Vec<u8> = s.chars().map(|c| c as u32 as u8).collect();
    parse_freq(&codes, current)
}

fn fmt(f: u32) -> String {
    let mut out = Vec::new();
    format_freq(f, &mut out);
    String::from_utf8(out).unwrap()
}

#[test]
fn parse_plain_and_kilo() {
    assert_eq!(parse("440", 7), Some(440));
    assert_eq!(parse("  440 \t", 7), Some(440));
    assert_eq!(parse("", 7), Some(7));
    assert_eq!(parse("   ", 7), Some(7));
    assert_eq!(parse("2k", 7), Some(2000));
    assert_eq!(parse("2K", 7), Some(2000));
    assert_eq!(parse("+12", 7), Some(12));
}

#[test]
fn parse_fractions() {
    assert_eq!(parse("1.5k", 0), Some(1500));
    assert_eq!(parse("1k5", 0), Some(1500));
    assert_eq!(parse("1k25", 0), Some(1250));
    assert_eq!(parse(".5k", 0), Some(500));
    assert_eq!(parse("1.5", 0), Some(1));
    assert_eq!(parse("1.5k3", 0), Some(1500));
    assert_eq!(parse("0.001k", 0), Some(1));
}

#[test]
fn parse_rejects() {
    assert_eq!(parse("abc", 0), None);
    assert_eq!(parse("1.", 0), None);
    assert_eq!(parse("k", 0), None);
    assert_eq!(parse("-5", 0), None);
    assert_eq!(parse("1kx", 0), None);
    assert_eq!(parse("4294967296", 0), None);
    assert_eq!(parse("1 2", 0), None);
}

#[test]
fn parse_wraps_like_32_bit_arithmetic() {
    assert_eq!(parse("4294968k", 0), Some(4294968u32.wrapping_mul(1000)));
}

#[test]
fn latin1_whitespace_is_trimmed() {
    let codes = [0xA0u8, b'9', b'0', 0x85];
    assert_eq!(parse_freq(&codes, 0), Some(90));
}

#[test]
fn format_shows_exact_kilohertz() {
    assert_eq!(fmt(999), "999");
    assert_eq!(fmt(0), "0");
    assert_eq!(fmt(1000), "1k");
    assert_eq!(fmt(1500), "1.5k");
    assert_eq!(fmt(1250), "1.25k");
    assert_eq!(fmt(1050), "1.05k");
    assert_eq!(fmt(1255), "1.255k");
    assert_eq!(fmt(1005), "1.005k");
    assert_eq!(fmt(200000), "200k");
    assert_eq!(fmt(u32::MAX), "4294967.295k");
}

#[test]
fn format_then_parse_round_trips() {
    for f in [100u32, 999, 1000, 1005, 1050, 1500, 12345, 199_999, 200_000] {
        assert_eq!(parse(&fmt(f), 0), Some(f));
    }
}

#[test]
fn greeting_text() {
    assert_eq!(String::from_utf8(greeting(1000)).unwrap(), "Freq: 1000\r\n> ");
}

fn type_line(line: &mut CommandLine, text: &[u8], current: u32) -> (Vec<u8>, Option<u32>) {
    let mut echo = Vec::new();
    let mut freq = None;
    for &b in text {
        let r = line.key(b, current);
        echo.extend(r.echo);
        if r.new_freq.is_some() {
            freq = r.new_freq;
        }
    }
    (echo, freq)
}

#[test]
fn console_sets_frequency() {
    let mut line = CommandLine::new();
    let (echo, f) = type_line(&mut line, b"1.5k\r", 1000);
    assert_eq!(f, Some(1500));
    assert_eq!(String::from_utf8(echo).unwrap(), "1.5k\r\nFreq: 1.5k\r\n> ");
}

#[test]
fn console_clamps_and_rejects() {
    let mut line = CommandLine::new();
    assert_eq!(type_line(&mut line, b"5\n", 1000).1, Some(100));
    assert_eq!(type_line(&mut line, b"900k\n", 1000).1, Some(200_000));
    let (echo, f) = type_line(&mut line, b"x\r", 1000);
    assert_eq!(f, None);
    assert_eq!(String::from_utf8(echo).unwrap(), "x\r\nInvalid\r\n> ");
    assert_eq!(type_line(&mut line, b"\r", 1234).1, Some(1234));
}

#[test]
fn console_backspace_and_capacity() {
    let mut line = CommandLine::new();
    let (echo, _) = type_line(&mut line, &[b'9', 8, 8, b'4'], 0);
    assert_eq!(echo, vec![b'9', 8, b' ', 8, b'4']);
    assert_eq!(type_line(&mut line, b"40\r", 0).1, Some(440));
    let long = [b'1'; 20];
    let (echo, _) = type_line(&mut line, &long, 0);
    assert_eq!(echo.len(), 16);
    assert_eq!(type_line(&mut line, b"\r", 0).1, None);
    let wide = [0xC3u8; 9];
    let (echo, _) = type_line(&mut line, &wide, 0);
    assert_eq!(echo.len(), 8);
}

#[test]
fn music_notes() {
    assert_eq!(Scale::A4.hz(), 440);
    assert_eq!(Scale::C4.hz(), 262);
    assert_eq!(Scale::E5.hz(), 659);
    assert_eq!(note_steps(&Note { scale: Scale::D4, div: 4, dot: false }), 100_000);
    assert_eq!(note_steps(&Note { scale: Scale::E4, div: 4, dot: true }), 150_000);
    assert_eq!(note_steps(&Note { scale: Scale::D4, div: 2, dot: false }), 200_000);
    assert_eq!(square_level(0, 440), DAC_MAX);
    assert_eq!(square_level(113, 440), DAC_MAX);
    assert_eq!(square_level(114, 440), 0);
    assert_eq!(square_level(228, 440), DAC_MAX);
}

#[test]
fn generator_clock_and_phase_step() {
    assert_eq!(clock_divisor(150_000_000, 4_000_000), (37, 128));
    assert_eq!(clock_divisor(150_000_000, 200_000), (750, 0));
    assert_eq!(dds_step(1000), 2_147_483);
    assert_eq!(dds_step(200_000), 429_496_729);
    assert_eq!(clamp_freq(50), 100);
    assert_eq!(clamp_freq(300_000), 200_000);
    assert_eq!(clamp_freq(1234), 1234);
}

#[test]
fn long_fraction_still_divides() {
    let mut s = String::from("0.");
    for _ in 0..29 {
        s.push('0');
    }
    s.push('7');
    assert_eq!(s.len(), 32);
    assert_eq!(parse(&s, 0), Some(7 / 10u32.wrapping_pow(30)));
}

#[test]
fn shown_frequencies_read_back_everywhere() {
    for f in (0u32..2_000_000).step_by(997) {
        assert_eq!(parse(&fmt(f), 5), Some(f));
    }
    assert_eq!(parse(&fmt(u32::MAX), 5), Some(u32::MAX));
}

#[test]
fn format_freq_stops_at_line_capacity() {
    let mut out = vec![b'x'; 28];
    format_freq(1234, &mut out);
    assert_eq!(&out[28..], b"1.");
    let mut out = vec![b'x'; 29];
    format_freq(1005, &mut out);
    assert_eq!(&out[29..], b"1.0");
    let mut out = vec![b'x'; 20];
    format_freq(4_294_967_295, &mut out);
    assert_eq!(&out[20..], b"4294967.295k");
    let mut out = vec![b'x'; 21];
    format_freq(4_294_967_295, &mut out);
    assert_eq!(&out[21..], b"4294967.295");
    let mut out = vec![b'x'; 40];
    format_freq(5, &mut out);
    assert_eq!(out.len(), 40);
}
