use kubesavings_agent::quantity::{
    parse_cpu_to_millicores, parse_memory_to_mib, split_cpu_quantity, split_memory_quantity,
    CpuUnit, MemoryUnit,
};

/// Millicores with their fraction, by the floating-point arithmetic of this machine.
fn parse_cpu_millicores(s: &str) -> f64 {
    let (numeral, unit) = split_cpu_quantity(s);
    let n = numeral.parse::<f64>().unwrap_or(0.0);
    match unit {
        CpuUnit::Core => n * 1000.0,
        CpuUnit::Milli => n,
        CpuUnit::Micro => n / 1_000.0,
        CpuUnit::Nano => n / 1_000_000.0,
    }
}

/// MiB with their fraction, by the floating-point arithmetic of this machine.
fn parse_memory_mib(s: &str) -> f64 {
    let (numeral, unit) = split_memory_quantity(s);
    let n = numeral.parse::<f64>().unwrap_or(0.0);
    match unit {
        MemoryUnit::Tebi => n * 1024.0 * 1024.0,
        MemoryUnit::Gibi => n * 1024.0,
        MemoryUnit::Mebi => n,
        MemoryUnit::Kibi => n / 1024.0,
        MemoryUnit::Tera => n * 1_000_000_000_000.0 / 1_048_576.0,
        MemoryUnit::Giga => n * 1_000_000_000.0 / 1_048_576.0,
        MemoryUnit::Mega => n * 1_000_000.0 / 1_048_576.0,
        MemoryUnit::Kilo => n * 1_000.0 / 1_048_576.0,
        MemoryUnit::Byte => n / 1_048_576.0,
    }
}

#[test]
fn test_parse_cpu_millicores() {
    assert_eq!(parse_cpu_to_millicores("500m"), 500);
    assert_eq!(parse_cpu_to_millicores("2"), 2000);
    assert_eq!(parse_cpu_to_millicores("1.5"), 1500);
    assert_eq!(parse_cpu_to_millicores("100m"), 100);
    assert_eq!(parse_cpu_to_millicores("0"), 0);
    assert_eq!(parse_cpu_to_millicores("1000000000n"), 1000);
    assert_eq!(parse_cpu_to_millicores("500000000n"), 500);
}

#[test]
fn test_parse_memory_mib() {
    assert_eq!(parse_memory_to_mib("512Mi"), 512);
    assert_eq!(parse_memory_to_mib("1Gi"), 1024);
    assert_eq!(parse_memory_to_mib("2Gi"), 2048);
    assert_eq!(parse_memory_to_mib("256Ki"), 0); // whole-MiB form truncates
    assert_eq!(parse_memory_to_mib("1073741824"), 1024); // 1 GiB in bytes
    assert_eq!(parse_memory_to_mib("500Mi"), 500);
    assert_eq!(parse_memory_to_mib("4Gi"), 4096);
}

#[test]
fn test_parse_cpu_millicores_keeps_sub_millicore_usage() {
    // metrics-server reports nanocores; 800000n is 0.8m, not "idle".
    assert!((parse_cpu_millicores("800000n") - 0.8).abs() < 1e-9);
    assert!((parse_cpu_millicores("100n") - 0.0001).abs() < 1e-9);
    assert!((parse_cpu_millicores("2500000n") - 2.5).abs() < 1e-9);
    assert!((parse_cpu_millicores("1500u") - 1.5).abs() < 1e-9);
    // The integer form still collapses these to zero, which is why the
    // usage path must not use it.
    assert_eq!(parse_cpu_to_millicores("800000n"), 0);
}

#[test]
fn test_parse_cpu_millicores_matches_integer_form_on_whole_values() {
    for s in ["500m", "2", "1.5", "0", "1000000000n"] {
        assert_eq!(
            parse_cpu_millicores(s) as u32,
            parse_cpu_to_millicores(s),
            "mismatch for {s}"
        );
    }
}

#[test]
fn test_parse_memory_mib_keeps_sub_mib_usage() {
    assert!((parse_memory_mib("512Ki") - 0.5).abs() < 1e-9);
    assert!((parse_memory_mib("256Ki") - 0.25).abs() < 1e-9);
    assert!((parse_memory_mib("1536Ki") - 1.5).abs() < 1e-9);
    assert_eq!(parse_memory_to_mib("512Ki"), 0);
}

#[test]
fn test_parse_memory_decimal_suffixes_scale_correctly() {
    // Decimal suffixes are powers of 1000; T is 1e12, not 1e9.
    assert!((parse_memory_mib("1M") - 1_000_000.0 / 1_048_576.0).abs() < 1e-6);
    assert!((parse_memory_mib("1G") - 1_000_000_000.0 / 1_048_576.0).abs() < 1e-6);
    assert!((parse_memory_mib("1T") - 1_000_000_000_000.0 / 1_048_576.0).abs() < 1e-3);
    // 1T must be 1000x 1G, not equal to it.
    assert!(parse_memory_mib("1T") > parse_memory_mib("1G") * 999.0);
    // Binary suffixes are powers of 1024.
    assert_eq!(parse_memory_mib("1Ti"), 1024.0 * 1024.0);
    assert_eq!(parse_memory_to_mib("1T"), 953_674);
    assert_eq!(parse_memory_to_mib("1G"), 953);
    assert_eq!(parse_memory_to_mib("3M"), 2);
    assert_eq!(parse_memory_to_mib("2000k"), 1);
    assert_eq!(parse_memory_to_mib("1Ti"), 1_048_576);
}

#[test]
fn test_parsers_reject_garbage_without_panicking() {
    for s in ["", "abc", "m", "Mi", "-5m", "1e", "  "] {
        let _ = parse_cpu_millicores(s);
        let _ = parse_memory_mib(s);
        // Negative quantities must never wrap around on the uint32 path.
        assert_eq!(parse_cpu_to_millicores(s), 0, "cpu {s:?}");
        assert_eq!(parse_memory_to_mib(s), 0, "mem {s:?}");
    }
}

#[test]
fn units_are_split_off() {
    assert_eq!(split_cpu_quantity(" 250m\n"), ("250", CpuUnit::Milli));
    assert_eq!(split_cpu_quantity("3u"), ("3", CpuUnit::Micro));
    assert_eq!(split_cpu_quantity("7n"), ("7", CpuUnit::Nano));
    assert_eq!(split_cpu_quantity("1.25"), ("1.25", CpuUnit::Core));
    assert_eq!(split_cpu_quantity("1 m"), ("1 ", CpuUnit::Milli));
    assert_eq!(split_cpu_quantity(""), ("", CpuUnit::Core));
    for (text, numeral, unit) in [
        ("1Ti", "1", MemoryUnit::Tebi),
        ("1Gi", "1", MemoryUnit::Gibi),
        ("1Mi", "1", MemoryUnit::Mebi),
        ("1Ki", "1", MemoryUnit::Kibi),
        ("1T", "1", MemoryUnit::Tera),
        ("1G", "1", MemoryUnit::Giga),
        ("1M", "1", MemoryUnit::Mega),
        ("1k", "1", MemoryUnit::Kilo),
        ("1", "1", MemoryUnit::Byte),
        ("1i", "1i", MemoryUnit::Byte),
        ("1K", "1K", MemoryUnit::Byte),
        ("i", "i", MemoryUnit::Byte),
        ("\u{2003}9Mi\u{85}", "9", MemoryUnit::Mebi),
    ] {
        assert_eq!(split_memory_quantity(text), (numeral, unit), "{text:?}");
    }
}

#[test]
fn notations_of_numbers_are_understood() {
    for (text, expected) in [
        ("1e3m", 1000),
        ("1E+3m", 1000),
        ("+5m", 5),
        (".5", 500),
        ("5.", 5000),
        ("0.0005", 0),
        ("1e-1", 100),
        ("12345e-2m", 123),
        ("0000000000000000000000000000000000000000000007m", 7),
        ("infm", u32::MAX),
        ("Infinity", u32::MAX),
        ("-inf", 0),
        ("nan", 0),
        ("NaNm", 0),
        ("4294967295m", u32::MAX),
        ("4294967294.9m", 4_294_967_294),
        ("4294967296m", u32::MAX),
        ("99999999999999999999999999999999999999999999", u32::MAX),
        ("1e400", u32::MAX),
        ("1e99999999999999999999999999999999999999999999", u32::MAX),
        ("1e-99999999999999999999999999999999999999999999", 0),
        ("0e99999999999999999999999999999999999999999999", 0),
        ("-0", 0),
        (".", 0),
        ("+", 0),
        ("e5", 0),
        ("1e+", 0),
        ("1_000", 0),
        ("0x10", 0),
        ("1 0", 0),
        ("١m", 0),
    ] {
        assert_eq!(parse_cpu_to_millicores(text), expected, "{text}");
    }
}

#[test]
fn the_last_digit_follows_double_precision() {
    // 1.001 is read slightly below its value, and its thousandfold is 1000.9999….
    assert_eq!(parse_cpu_to_millicores("1.001"), (1.001f64 * 1000.0) as u32);
    assert_eq!(parse_cpu_to_millicores("0.29"), (0.29f64 * 1000.0) as u32);
    assert_eq!(parse_cpu_to_millicores("1.1"), (1.1f64 * 1000.0) as u32);
    // Just below a whole number, but not by as much as can be represented.
    assert_eq!(parse_cpu_to_millicores("0.99999999999999999999m"), 1);
    assert_eq!(parse_cpu_to_millicores("0.9999999999999999m"), 0);
}

/// A small generator of numbers, the same in every run.
struct Numbers(u64);

impl Numbers {
    fn next(&mut self, below: u64) -> u64 {
        self.0 = self
            .0
            .wrapping_mul(6364136223846793005)
            .wrapping_add(1442695040888963407);
        (self.0 >> 33) % below
    }

    fn digits(&mut self, most: u64) -> String {
        let n = self.next(most + 1);
        let mut s = String::new();
        for _ in 0..n {
            s.push((b'0' + self.next(10) as u8) as char);
        }
        s
    }

    fn numeral(&mut self) -> String {
        let mut s = String::new();
        match self.next(12) {
            0 => s.push('-'),
            1 => s.push('+'),
            _ => {}
        }
        let most = if self.next(4) == 0 { 40 } else { 9 };
        s.push_str(&self.digits(most));
        if self.next(2) == 0 {
            s.push('.');
            let most = if self.next(4) == 0 { 60 } else { 12 };
            s.push_str(&self.digits(most));
        }
        if self.next(4) == 0 {
            s.push(if self.next(2) == 0 { 'e' } else { 'E' });
            match self.next(3) {
                0 => s.push('-'),
                1 => s.push('+'),
                _ => {}
            }
            s.push_str(&self.digits(2));
        }
        s
    }
}

#[test]
fn whole_forms_agree_with_floating_point() {
    let mut numbers = Numbers(20260101);
    for _ in 0..60_000 {
        let numeral = numbers.numeral();
        let cpu_unit = ["", "m", "u", "n"][numbers.next(4) as usize];
        let cpu = format!("{numeral}{cpu_unit}");
        assert_eq!(
            parse_cpu_to_millicores(&cpu),
            parse_cpu_millicores(&cpu) as u32,
            "{cpu}"
        );
        let memory_unit =
            ["", "Ki", "Mi", "Gi", "Ti", "k", "M", "G", "T"][numbers.next(9) as usize];
        let memory = format!("{numeral}{memory_unit}");
        assert_eq!(
            parse_memory_to_mib(&memory),
            parse_memory_mib(&memory) as u32,
            "{memory}"
        );
    }
}

#[test]
fn whole_forms_agree_next_to_whole_numbers() {
    // Values whose scaled form lies within a few units in the last place of an integer.
    let mut numbers = Numbers(7);
    for _ in 0..20_000 {
        let whole = numbers.next(5_000) as f64;
        let near = whole / 1000.0;
        for step in [-2i64, -1, 0, 1, 2] {
            let bits = (near.to_bits() as i64 + step).max(0) as u64;
            let text = format!("{:.30}", f64::from_bits(bits));
            assert_eq!(
                parse_cpu_to_millicores(&text),
                parse_cpu_millicores(&text) as u32,
                "{text}"
            );
            let nano = format!("{:.12}n", whole * 1_000_000.0 + step as f64 * 1e-9);
            assert_eq!(
                parse_cpu_to_millicores(&nano),
                parse_cpu_millicores(&nano) as u32,
                "{nano}"
            );
            let bytes = format!("{:.9}", whole * 1_048_576.0 + step as f64 * 1e-6);
            assert_eq!(
                parse_memory_to_mib(&bytes),
                parse_memory_mib(&bytes) as u32,
                "{bytes}"
            );
        }
    }
}

#[test]
fn whole_quantities_are_exact() {
    for (text, expected) in [
        ("0m", 0),
        ("4294967u", 4294),
        ("9007199254740991n", u32::MAX),
        ("9007199n", 9),
        ("4294967", 4_294_967_000),
        ("4294968", u32::MAX),
    ] {
        assert_eq!(parse_cpu_to_millicores(text), expected, "{text}");
    }
    for (text, expected) in [
        ("4095Ti", 4_293_918_720),
        ("4096Ti", u32::MAX),
        ("1048575", 0),
        ("1048576", 1),
        ("1023Ki", 0),
        ("1024Ki", 1),
    ] {
        assert_eq!(parse_memory_to_mib(text), expected, "{text}");
    }
}
