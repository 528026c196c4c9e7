use strawberride::float::Float32;
use strawberride::text::{
    char_is_whitespace, format_i32, from_chars, hex_byte, hex_digit_value, parse_i32, split_fields,
    split_lines, str_eq, to_chars, trimmed,
};

fn chars(s: &str) -> Vec<char> {
    s.chars().collect()
}

#[test]
fn parse_i32_agrees_with_std() {
    let samples = [
        "0", "7", "-7", "+7", "007", "-0", "+0", "2147483647", "2147483648", "-2147483648",
        "-2147483649", "99999999999999999999", "00000000000000000000000012", "", "-", "+", " 1",
        "1 ", "1a", "a1", "--1", "+-1", "1.0", "１２", "0x10", "-00000000002147483648",
    ];
    for sample in samples {
        assert_eq!(parse_i32(&chars(sample)), sample.parse::<i32>().ok(), "{:?}", sample);
    }
}

#[test]
fn format_i32_agrees_with_std() {
    let samples = [0, 1, -1, 9, 10, 99, 100, -100, 12345, i32::MAX, i32::MIN, i32::MIN + 1, -2147483647];
    for sample in samples {
        assert_eq!(format_i32(sample), sample.to_string());
        assert_eq!(parse_i32(&chars(&format_i32(sample))), Some(sample));
    }
}

#[test]
fn whitespace_agrees_with_std() {
    let mut code: u32 = 0;
    while code <= 0x10ffff {
        if let Some(c) = char::from_u32(code) {
            assert_eq!(char_is_whitespace(c), c.is_whitespace(), "U+{:04X}", code);
        }
        code += 1;
    }
}

#[test]
fn trimmed_agrees_with_std() {
    let samples = ["", " ", "a", " a", "a ", "  a b  ", "\t\n x \r\n", "\u{a0}7\u{3000}", " \u{200b} "];
    for sample in samples {
        let cs = chars(sample);
        let got: String = trimmed(&cs).iter().collect();
        assert_eq!(got, sample.trim(), "{:?}", sample);
    }
}

#[test]
fn split_lines_agrees_with_std() {
    let samples = [
        "", "a", "a\n", "a\nb", "a\r\nb", "a\r\n", "\n", "\n\n", "a\n\nb", "a\rb", "a\r", "\r",
        "\r\n", "a\r\r\nb", "\na", "a\n\r\nb\r", "abc\ndef\n\n",
    ];
    for sample in samples {
        let got: Vec<String> = split_lines(&chars(sample)).iter().map(|l| l.iter().collect()).collect();
        let want: Vec<String> = sample.lines().map(|l| l.to_string()).collect();
        assert_eq!(got, want, "{:?}", sample);
    }
}

#[test]
fn split_fields_agrees_with_std() {
    let samples = ["", ",", "a", "a,b", "a,,b", ",a,", "1, 2,3 ,", ",,"];
    for sample in samples {
        let got: Vec<String> =
            split_fields(&chars(sample), ',').iter().map(|l| l.iter().collect()).collect();
        let want: Vec<String> = sample.split(',').map(|l| l.to_string()).collect();
        assert_eq!(got, want, "{:?}", sample);
    }
}

#[test]
fn strings_and_chars_convert() {
    assert_eq!(to_chars("héllo"), chars("héllo"));
    assert_eq!(from_chars(&chars("héllo")), "héllo");
    assert!(str_eq("abc", "abc"));
    assert!(!str_eq("abc", "abd"));
    assert!(!str_eq("abc", "ab"));
    assert!(str_eq("", ""));
}

#[test]
fn hex_digits() {
    assert_eq!(hex_byte(0), "00");
    assert_eq!(hex_byte(0x0f), "0f");
    assert_eq!(hex_byte(0xa5), "a5");
    assert_eq!(hex_byte(0xff), "ff");
    for b in 0..=255u8 {
        assert_eq!(hex_byte(b), format!("{:02x}", b));
    }
    for code in 0..=0x7fu8 {
        let c = code as char;
        let want = if c.is_ascii_hexdigit() { Some(c.to_digit(16).unwrap() as u8) } else { None };
        assert_eq!(hex_digit_value(c), want);
    }
    assert_eq!(hex_digit_value('é'), None);
    assert_eq!(hex_digit_value('０'), None);
}

#[test]
fn int_to_float_agrees_with_the_machine() {
    let mut samples: Vec<i32> = vec![0, 1, -1, 2, 3, 255, 256, 1000, -1000, i32::MAX, i32::MIN, i32::MIN + 1];
    let mut p: i64 = 1;
    for _ in 0..32 {
        for d in [-3i64, -2, -1, 0, 1, 2, 3] {
            for scale in [1i64, 3, 5] {
                let v = p * scale / 2 + d;
                if v >= i32::MIN as i64 && v <= i32::MAX as i64 {
                    samples.push(v as i32);
                    samples.push((-v).max(i32::MIN as i64) as i32);
                }
            }
        }
        p *= 2;
    }
    // ties and their neighbours just above twenty-four bits
    for base in [16777216i32, 16777218, 33554432, 33554436, 1073741824, 2147483520] {
        for d in -70..70 {
            if let Some(v) = base.checked_add(d) {
                samples.push(v);
                samples.push(-v);
            }
        }
    }
    let mut state: u32 = 0x1234_5678;
    for _ in 0..20000 {
        state = state.wrapping_mul(1664525).wrapping_add(1013904223);
        samples.push(state as i32);
    }
    for n in samples {
        assert_eq!(Float32::from_i32(n).to_bits(), (n as f32).to_bits(), "{}", n);
    }
}

#[test]
fn float_to_int_agrees_with_the_machine() {
    let mut samples: Vec<u32> = vec![
        0, 0x8000_0000, 0x3f80_0000, 0xbf80_0000, 0x7f80_0000, 0xff80_0000, 0x7fc0_0000, 0xffc0_0001,
        0x7f80_0001, 0x0000_0001, 0x007f_ffff, 0x0080_0000, 0x4f00_0000, 0xcf00_0000, 0x4eff_ffff,
        0xceff_ffff, 0xcf00_0001, 0x4b00_0000, 0x4b7f_ffff, 0x4b80_0000, 0x3f7f_ffff, 0x3fff_ffff,
        0x4000_0000, 0x7f7f_ffff, 0xff7f_ffff,
    ];
    for exponent in 0..=255u32 {
        for fraction in [0u32, 1, 0x40_0000, 0x7f_ffff, 0x12_3456] {
            samples.push((exponent << 23) | fraction);
            samples.push(0x8000_0000 | (exponent << 23) | fraction);
        }
    }
    let mut state: u32 = 0x9e37_79b9;
    for _ in 0..20000 {
        state = state.wrapping_mul(1664525).wrapping_add(1013904223);
        samples.push(state);
    }
    for bits in samples {
        assert_eq!(Float32::from_bits(bits).to_i32(), f32::from_bits(bits) as i32, "{:#x}", bits);
    }
}

#[test]
fn float_constants() {
    assert_eq!(Float32::zero().to_bits(), 0.0f32.to_bits());
    assert_eq!(Float32::one().to_bits(), 1.0f32.to_bits());
    assert!(Float32::from_bits(0.0f32.to_bits()).is_zero());
    assert!(Float32::from_bits((-0.0f32).to_bits()).is_zero());
    assert!(!Float32::from_bits(f32::MIN_POSITIVE.to_bits()).is_zero());
    assert!(!Float32::from_bits(f32::NAN.to_bits()).is_zero());
    assert_eq!(Float32::from_i32(16777217).to_i32(), 16777216);
    assert_eq!(Float32::from_i32(-5).to_i32(), -5);
    assert_eq!(Float32::from_bits(2.9f32.to_bits()).to_i32(), 2);
    assert_eq!(Float32::from_bits((-2.9f32).to_bits()).to_i32(), -2);
}
