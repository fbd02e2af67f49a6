use forgedrive::size::{byte_size_text, size_unit, SizeUnit};

#[test]
fn units_switch_at_powers_of_1024() {
    assert_eq!(size_unit(0), SizeUnit::Bytes);
    assert_eq!(size_unit(1023), SizeUnit::Bytes);
    assert_eq!(size_unit(1024), SizeUnit::Kilobytes);
    assert_eq!(size_unit(1048575), SizeUnit::Kilobytes);
    assert_eq!(size_unit(1048576), SizeUnit::Megabytes);
    assert_eq!(size_unit(1073741823), SizeUnit::Megabytes);
    assert_eq!(size_unit(1073741824), SizeUnit::Gigabytes);
    assert_eq!(size_unit(u64::MAX), SizeUnit::Gigabytes);
}

#[test]
fn unit_sizes_and_symbols() {
    assert_eq!(SizeUnit::Bytes.bytes(), 1);
    assert_eq!(SizeUnit::Kilobytes.bytes(), 1024);
    assert_eq!(SizeUnit::Megabytes.bytes(), 1024 * 1024);
    assert_eq!(SizeUnit::Gigabytes.bytes(), 1024 * 1024 * 1024);
    assert_eq!(SizeUnit::Bytes.symbol(), "B");
    assert_eq!(SizeUnit::Kilobytes.symbol(), "KB");
    assert_eq!(SizeUnit::Megabytes.symbol(), "MB");
    assert_eq!(SizeUnit::Gigabytes.symbol(), "GB");
}

#[test]
fn shown_number_is_below_1024() {
    for b in [1u64, 1023, 1024, 5000, 1048576, 999_999_999, 1073741824] {
        let u = size_unit(b);
        assert!(b >= u.bytes());
        assert!(u == SizeUnit::Gigabytes || b < 1024 * u.bytes());
    }
}

#[test]
fn sizes_in_bytes_are_written_as_integers() {
    assert_eq!(byte_size_text(0), "0 B");
    assert_eq!(byte_size_text(512), "512 B");
    for b in [1u64, 9, 10, 99, 1023, 1024, 4096, u64::MAX] {
        assert_eq!(byte_size_text(b), format!("{} B", b));
    }
}
