use netctl::display::{
    empty_row, footer, format_bytes, format_mbps, format_millis, format_percent, format_rate,
    header_lines, print_progress_bar, row,
};

#[test]
fn format_bytes_plain_bytes() {
    assert_eq!(format_bytes(0), "0 B");
    assert_eq!(format_bytes(999), "999 B");
}

#[test]
fn format_bytes_kilobytes_round_to_whole() {
    assert_eq!(format_bytes(1_000), "1 KB");
    assert_eq!(format_bytes(1_499), "1 KB");
    assert_eq!(format_bytes(1_500), "2 KB");
    assert_eq!(format_bytes(2_500), "2 KB");
    assert_eq!(format_bytes(999_999), "1000 KB");
}

#[test]
fn format_bytes_megabytes_one_decimal() {
    assert_eq!(format_bytes(1_000_000), "1.0 MB");
    assert_eq!(format_bytes(1_250_000), "1.2 MB");
    assert_eq!(format_bytes(1_750_000), "1.8 MB");
    assert_eq!(format_bytes(25_000_000), "25.0 MB");
    assert_eq!(format_bytes(999_999_999), "1000.0 MB");
}

#[test]
fn format_bytes_gigabytes_one_decimal() {
    assert_eq!(format_bytes(1_000_000_000), "1.0 GB");
    assert_eq!(format_bytes(1_520_000_000), "1.5 GB");
    assert_eq!(format_bytes(u64::MAX), "18446744073.7 GB");
}

#[test]
fn format_rate_units() {
    assert_eq!(format_rate(512), "512 B/s");
    assert_eq!(format_rate(2_000), "2 KB/s");
    assert_eq!(format_rate(3_400_000), "3.4 MB/s");
    assert_eq!(format_rate(7_000_000_000), "7.0 GB/s");
}

#[test]
fn format_mbps_units() {
    assert_eq!(format_mbps(80_000), "80.0 Mbps");
    assert_eq!(format_mbps(999_940), "999.9 Mbps");
    assert_eq!(format_mbps(1_000_000), "1.0 Gbps");
    assert_eq!(format_mbps(2_540_000), "2.5 Gbps");
    assert_eq!(format_mbps(0), "0.0 Mbps");
}

#[test]
fn box_lines() {
    let bar = "\u{2500}".repeat(57);
    let head = header_lines("NETWORK SPEED TEST");
    assert_eq!(head.len(), 3);
    assert_eq!(head[0], format!("\u{256d}{}\u{256e}", bar));
    assert_eq!(head[1], format!("\u{2502}{}NETWORK SPEED TEST{}\u{2502}", " ".repeat(18), " ".repeat(19)));
    assert_eq!(head[2], format!("\u{251c}{}\u{2524}", bar));
    assert_eq!(footer(), format!("\u{2570}{}\u{256f}", bar));
    assert_eq!(empty_row(), format!("\u{2502}{}\u{2502}", " ".repeat(57)));
    assert_eq!(
        row("Server:", "Cloudflare (Edge)"),
        format!("\u{2502} Server:          Cloudflare (Edge){}\u{2502}", " ".repeat(22))
    );
}

#[test]
fn box_lines_with_long_texts_are_not_filled_up() {
    let long = "x".repeat(60);
    assert_eq!(header_lines(&long)[1], format!("\u{2502}{}\u{2502}", long));
    assert_eq!(header_lines(&"y".repeat(55))[1], format!("\u{2502}{}\u{2502}", "y".repeat(55)));
    assert_eq!(header_lines(&"y".repeat(54))[1], format!("\u{2502}{} \u{2502}", "y".repeat(54)));
    assert_eq!(row("A label longer than usual:", &long), format!("\u{2502} A label longer than usual:{}\u{2502}", long));
}

#[test]
fn progress_bar_cells_and_percent() {
    assert_eq!(print_progress_bar(500, 10), "[\u{2588}\u{2588}\u{2588}\u{2588}\u{2588}\u{2591}\u{2591}\u{2591}\u{2591}\u{2591}] 50%");
    assert_eq!(print_progress_bar(0, 4), "[\u{2591}\u{2591}\u{2591}\u{2591}] 0%");
    assert_eq!(print_progress_bar(1000, 3), "[\u{2588}\u{2588}\u{2588}] 100%");
    assert_eq!(print_progress_bar(250, 2), "[\u{2588}\u{2591}] 25%");
    assert_eq!(print_progress_bar(125, 4), "[\u{2588}\u{2591}\u{2591}\u{2591}] 12%");
    assert_eq!(print_progress_bar(1500, 2), "[\u{2588}\u{2588}\u{2588}] 150%");
    assert_eq!(print_progress_bar(700, 0), "[] 70%");
}

#[test]
fn times_and_shares_as_texts() {
    assert_eq!(format_millis(24_300), "24 ms");
    assert_eq!(format_millis(24_500), "24 ms");
    assert_eq!(format_millis(25_500), "26 ms");
    assert_eq!(format_millis(499), "0 ms");
    assert_eq!(format_percent(20_000), "20.0%");
    assert_eq!(format_percent(33_333), "33.3%");
    assert_eq!(format_percent(250), "0.2%");
    assert_eq!(format_percent(100_000), "100.0%");
}
