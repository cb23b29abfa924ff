use rs_1brc::bench::check::{check_cpu, check_part, has_no_look_alike, is_alternating, is_number};
use rs_1brc::bench::check::{is_finished, is_readable, is_scannable, is_spread, map_checked, reduce_checked};
use rs_1brc::bench::city::City;
use rs_1brc::bench::decode::{decode_lines_a, decode_lines_b, decode_lines_c, find_comma_simd, find_newline_simd, Group};
use rs_1brc::bench::number::{parse_number, parse_number_ex};
use rs_1brc::bench::reduce::{can_combine, combine, map_part, plan, reduce, Cpu, Part, Reduce};
use rs_1brc::bench::thousands::ThousandSep;
use rs_1brc::bench::token::Tokenizer;
use rs_1brc::bench::weather::Weather;
use rs_1brc::bench::weather_map::WeatherMap;
use rs_1brc::scanner::{find_newline, Scanner};
use rs_1brc::swar::{find_flags, take_flag, word_at, word_padded, BASE_MASK_CM, BASE_MASK_NL};
use rs_1brc::table::Table;

const SAMPLE: &str = "aaaaaaaaa;-10.0\naaaaaaaaa;26.0\ndef;2.1\n";

fn text(bytes: Vec<u8>) -> String {
    String::from_utf8(bytes).unwrap()
}

fn report(r: &Reduce) -> String {
    let mut buf = Vec::new();
    r.write(&mut buf);
    text(buf)
}

fn weather_text(w: &Weather) -> String {
    let mut buf = Vec::new();
    w.write(&mut buf);
    text(buf)
}

#[test]
fn test_parse_number() {
    let val = parse_number("10.9".as_bytes());
    assert_eq!(val, 109);
    let val = parse_number("-10.9".as_bytes());
    assert_eq!(val, -109);
    let val = parse_number("1.0".as_bytes());
    assert_eq!(val, 10);
    let val = parse_number("-1.0".as_bytes());
    assert_eq!(val, -10);
}

#[test]
fn test_decode() {
    let data = "aaaaaaaaa;-10.0\naaaaaaaaa;26.0\ndef;2.1\n".as_bytes();
    let mut m = WeatherMap::default();
    decode_lines_c(data, &mut m, false);
    assert_eq!(m.len(), 2);
    let r = m.get(&City::new("aaaaaaaaa".as_bytes())).unwrap();
    assert_eq!(r.cnt, 2);
    assert_eq!(r.min, -100);
    assert_eq!(r.max, 260);
    assert_eq!(r.sum, 160);
}

#[test]
fn test_swar() {
    fn fmt(mut v: String) -> String {
        let mut i = v.len() - 8;
        while i > 0 {
            v.insert(i, ' ');
            i -= 8;
        }
        v
    }
    const SIZE: usize = 4;
    const MASK: u32 = u32::from_ne_bytes([b';'; SIZE]);
    const MASK1: u32 = u32::from_ne_bytes([0x01; SIZE]);
    const MASK2: u32 = u32::from_ne_bytes([0x80; SIZE]);
    let mut arr = [b'1'; SIZE];
    arr[SIZE - 2] = b';';
    let mut value = u32::from_ne_bytes(arr);
    let mut buf = String::new();
    let steps = [
        ("value", value, ""),
        ("MASK", MASK, ""),
        ("value ^ MASK", value ^ MASK, "=>value"),
        ("MASK1", MASK1, ""),
        ("(value - MASK1)", (value ^ MASK).wrapping_sub(MASK1), ""),
        ("MASK2", MASK2, ""),
    ];
    for (name, v, x) in steps {
        buf.push_str(&format!("{:>32} | {} | {}\n", name, fmt(format!("{:032b}", v)), x));
    }
    value ^= MASK;
    value = value.wrapping_sub(MASK1) & !value & MASK2;
    buf.push_str(&format!("{:>32} | {}\n", "value.trailing_zeros()", value.trailing_zeros()));
    buf.push_str(&format!("{:>32} | {}\n", "value.trailing_zeros() >> 3", value.trailing_zeros() >> 3));
    assert_eq!(value.trailing_zeros() >> 3, (SIZE - 2) as u32);

    let flags = find_flags(BASE_MASK_CM, word_padded(&arr, 0));
    assert_eq!(flags.trailing_zeros() >> 3, (SIZE - 2) as u32);

    println!("\n\n{}\n", buf.as_str());
}

#[test]
fn flags_mark_the_bytes_of_a_word() {
    let data = b"ab;cd;ef\n";
    let mut x = find_flags(BASE_MASK_CM, word_at(data, 0));
    assert_eq!(take_flag(&mut x), 2);
    assert_eq!(take_flag(&mut x), 5);
    assert_eq!(x, 0);
    assert_eq!(find_flags(BASE_MASK_NL, word_at(data, 0)), 0);
    assert_eq!(find_flags(BASE_MASK_NL, word_at(data, 1)), 0x8000_0000_0000_0000);
    assert_eq!(word_padded(data, 7), 0x0a66);
    // the look-alike behind a separator is flagged too
    assert_eq!(find_flags(BASE_MASK_CM, word_at(b";:______", 0)), 0x8080);
    assert_eq!(find_flags(BASE_MASK_CM, word_at(b":;______", 0)), 0x8000);
}

#[test]
fn numbers_at_the_edges() {
    assert_eq!(parse_number(b"0.0"), 0);
    assert_eq!(parse_number(b"-0.0"), 0);
    assert_eq!(parse_number(b"99.9"), 999);
    assert_eq!(parse_number(b"-99.9"), -999);
    assert_eq!(parse_number(b"7"), 7);
    // low four bits of each byte, modulo 1024
    assert_eq!(parse_number(b"::.:"), 86);
    assert!(is_number(b"1.0") && is_number(b"-10.0"));
    assert!(!is_number(b"") && !is_number(b"-") && !is_number(b"100.0") && !is_number(b"-100.0"));
}

#[test]
fn numbers_from_a_word() {
    assert_eq!(parse_number_ex(word_padded(b"-10.9\nab", 0), 5), -109);
    assert_eq!(parse_number_ex(word_padded(b"10.9\nabc", 0), 4), 109);
    assert_eq!(parse_number_ex(word_padded(b"1.0\n", 0), 3), 10);
    assert_eq!(parse_number_ex(word_padded(b"-1.0\n", 0), 4), -10);
}

#[test]
fn fingerprints_mix_first_and_last_bytes() {
    assert_eq!(City::new(b"a").fp, (1, 0x6100_0000_0000_0061));
    assert_eq!(City::new(b"ab").fp, (2, 0x6261_0000_0000_6162));
    assert_eq!(City::new(b"abcdefghi").fp, (9, 0x6867_6665_6463_6261 ^ 0x6968_6766_6564_6362));
    let c = City::new(b"abc");
    assert_eq!(c.hash(), c.fp.1);
    assert!(c == City::new_ex(b"abc", word_padded(b"abc;1.0\n", 0)));
    assert!(c != City::new(b"abd"));
    // names with the same first and last bytes and the same length share a fingerprint
    assert!(City::new(b"abcdefgh_0_abcdefgh") == City::new(b"abcdefgh_1_abcdefgh"));
    let mut buf = b"=".to_vec();
    c.write(&mut buf);
    assert_eq!(text(buf), "=abc");
}

#[test]
fn weather_is_shown_with_one_digit() {
    let mut w = Weather::new(((0, 0), -15));
    assert_eq!(weather_text(&w), "-1.5/-1.5/-1.5");
    w.add_value(14);
    // half a tenth is rounded away from zero
    assert_eq!((w.cnt, w.sum, w.min, w.max), (2, -1, -15, 14));
    assert_eq!(weather_text(&w), "-1.5/-0.1/1.4");
    w.add_value(2);
    assert_eq!(weather_text(&w), "-1.5/0.0/1.4");
    let mut v = Weather::from(((0, 0), 1000));
    assert_eq!(weather_text(&v), "100.0/100.0/100.0");
    v.add_assign(w);
    assert_eq!((v.cnt, v.sum, v.min, v.max), (4, 1001, -15, 1000));
    assert_eq!(weather_text(&v), "-1.5/25.0/100.0");
    let cold = Weather::new(((0, 0), -1000));
    assert_eq!(weather_text(&cold), "-,100.0/-,100.0/-,100.0");
    let hot = Weather::new(((0, 0), 12345));
    assert_eq!(weather_text(&hot), "1,234.5/1,234.5/1,234.5");
}

#[test]
fn thousands_are_separated() {
    assert_eq!(text(1234567u64.format(0)), "1,234,567");
    assert_eq!(text(999usize.format(0)), "999");
    assert_eq!(text(1000usize.format(2)), "1,000.00");
    assert_eq!(text(b"1234.5".format(3)), "1,234.500");
    assert_eq!(text(b"12.3456".format(3)), "12.345");
    assert_eq!(text(b"12".format(3)), "12.000");
    assert_eq!(text(b"-123".format(0)), "-,123");
}

#[test]
fn tokens_come_in_order() {
    let data = b"ab;cd_______________________;ef;gh_______________;i";
    let mut t = Tokenizer::new(data, b';', BASE_MASK_CM);
    let mut found = Vec::new();
    while let Some(i) = t.next() {
        found.push(i);
    }
    assert_eq!(found, vec![2, 28, 31, 49]);
    assert_eq!(t.next(), None);
}

#[test]
fn tokens_do_not_depend_on_alignment() {
    let padded = b"________________ab;1.0\ncd;2.0\nefghijklmnop;3.0\nq;-44.4\n";
    for i in 0..16 {
        let data = &padded[i..];
        let mut t = Tokenizer::new(data, b'\n', BASE_MASK_NL);
        let mut found = Vec::new();
        while let Some(p) = t.next() {
            found.push(p + i);
        }
        assert_eq!(found, vec![22, 29, 46, 54]);
    }
}

#[test]
fn the_next_delimiters_are_cached() {
    let data = b"ab;1.0\ncdefgh;2.0\nij;3.0\n";
    let mut cache = [0usize; 3];
    assert_eq!(find_comma_simd(&mut cache, data, 0), 2);
    assert_eq!(&cache[..2], &[2, 13]);
    assert_eq!(find_comma_simd(&mut cache, data, 14), 1);
    assert_eq!(cache[0], 20);
    assert_eq!(find_comma_simd(&mut cache, data, 21), 0);
    assert_eq!(find_newline_simd(&mut cache, data, 3), 2);
    assert_eq!(&cache[..2], &[6, 17]);
    // sixteen bytes are looked at
    let mut far = vec![b'x'; 40];
    far[20] = b';';
    far[35] = b';';
    assert_eq!(find_comma_simd(&mut cache, &far, 20), 2);
    assert_eq!(&cache[..2], &[20, 35]);
    assert_eq!(find_comma_simd(&mut cache, &far, 19), 1);
    assert_eq!(cache[0], 20);
}

#[test]
fn all_readers_see_the_same_records() {
    let mut data = Vec::new();
    for i in 0..200usize {
        let name = format!("station number {}", i % 17);
        data.extend_from_slice(&name.as_bytes()[..name.len() - i % 3]);
        data.extend_from_slice(format!(";{}{}.{}\n", if i % 2 == 0 { "-" } else { "" }, i % 100, i % 10).as_bytes());
    }
    let mut a = WeatherMap::default();
    let mut b = WeatherMap::default();
    let mut c = WeatherMap::default();
    assert!(is_scannable(&data));
    assert_eq!(decode_lines_a(&data, &mut a, false), 200);
    assert_eq!(decode_lines_b(&data, &mut b, false), 200);
    assert_eq!(decode_lines_c(&data, &mut c, false), 200);
    assert_eq!(a.len(), b.len());
    assert_eq!(b.len(), c.len());
    for i in 0..17 {
        let name = format!("station number {}", i);
        let city = City::new(name.as_bytes());
        let x = a.get(&city).map(|w| (w.cnt, w.sum, w.min, w.max));
        let y = b.get(&city).map(|w| (w.cnt, w.sum, w.min, w.max));
        let z = c.get(&city).map(|w| (w.cnt, w.sum, w.min, w.max));
        assert_eq!(x, y);
        assert_eq!(y, z);
    }
}

#[test]
fn a_long_name_has_another_fingerprint_in_sequence() {
    for len in [63usize, 64, 65, 71, 72, 73, 100, 127, 128, 200] {
        let mut data: Vec<u8> = (0..len).map(|i| b'a' + (i % 23) as u8).collect();
        let name = data.clone();
        data.extend_from_slice(b";1.0\n");
        data.extend_from_slice(&[b'_'; 64]);
        let mut a = WeatherMap::default();
        let mut b = WeatherMap::default();
        let mut c = WeatherMap::default();
        assert_eq!(decode_lines_a(&data, &mut a, false), 1);
        assert_eq!(decode_lines_b(&data, &mut b, false), 1);
        assert_eq!(decode_lines_c(&data, &mut c, false), 1);
        assert_eq!(a.get(&City::new(&name)).unwrap().sum, 10);
        assert_eq!(b.get(&City::new(&name)).unwrap().sum, 10);
        // the first word of the block with the separator
        let word = word_at(&data, len / 64 * 64);
        assert_eq!(c.get(&City::new_ex(&name, word)).unwrap().sum, 10);
        assert_eq!(c.get(&City::new(&name)).is_some(), len < 64);
        // there is no whole block behind
        let mut last = WeatherMap::default();
        let short = &data[..data.len() - 64];
        assert_eq!(decode_lines_c(short, &mut last, false), 1);
        let whole = short.len() >= len / 64 * 64 + 64;
        assert_eq!(last.get(&City::new(&name)).is_some(), len < 64 || !whole);
    }
}

#[test]
fn a_record_in_a_whole_block_has_to_end() {
    let mut data = b"x;1.0\n".to_vec();
    data.extend_from_slice(b"y;");
    data.extend_from_slice(&[b'_'; 61]);
    // one byte less than a block behind the first record
    assert!(is_finished(&data) && check_part(&data, false, 2));
    assert_eq!(map_checked(&data, false, 2).unwrap().total, 1);
    data.push(b'_');
    assert!(!is_finished(&data) && !check_part(&data, false, 2) && !check_part(&data, true, 2));
    assert!(map_checked(&data, false, 2).is_none());
    assert_eq!(map_checked(&data, false, 0).unwrap().total, 1);
    assert_eq!(map_checked(&data, false, 1).unwrap().total, 1);
    // no separator in the whole blocks
    let mut data = b"x;1.0\n".to_vec();
    data.extend_from_slice(&[b'_'; 200]);
    assert!(is_finished(&data) && is_finished(b""));
    assert_eq!(map_checked(&data, false, 2).unwrap().total, 1);
}

#[test]
fn a_group_is_read_once() {
    for data in [&b"ab;1.0\ncd;2.0\n"[..], &b"ab;1.0\ncd;2.0\nef;3.;4"[..], &b"ab;1.0\ncd;2.0\nef"[..]] {
        let mut m = WeatherMap::default();
        let mut group = Group::new(data);
        assert_eq!(group.for_each(&mut m, false), 2);
        assert_eq!(group.for_each(&mut m, false), 0);
        assert_eq!(group.for_each(&mut m, true), 0);
        assert_eq!(m.get(&City::new(b"ab")).unwrap().cnt, 1);
        assert_eq!(m.len(), 2);
    }
}

#[test]
fn two_lots_are_read_into_one_table() {
    let a = b"x;1.0\ny;2.0\n";
    let b = b"y;-4.0\nz;8.8\n";
    let both: Vec<u8> = [&a[..], &b[..]].concat();
    let readers = [decode_lines_a, decode_lines_b, decode_lines_c];
    for read in readers {
        let mut one = WeatherMap::default();
        let mut two = WeatherMap::default();
        assert_eq!(read(&both, &mut one, false), 4);
        assert_eq!(read(a, &mut two, false) + read(b, &mut two, false), 4);
        assert_eq!((one.len(), two.len()), (3, 3));
        for name in [b"x", b"y", b"z"] {
            let (p, q) = (one.get(&City::new(name)).unwrap(), two.get(&City::new(name)).unwrap());
            assert_eq!((p.cnt, p.sum, p.min, p.max), (q.cnt, q.sum, q.min, q.max));
        }
    }
}

#[test]
fn a_city_is_made_of_its_name() {
    let city: City = (&b"Abidjan"[..]).into();
    assert_eq!((city.fp, city.name), (City::new(b"Abidjan").fp, &b"Abidjan"[..]));
    let none = City::from(&b""[..]);
    assert_eq!((none.fp, none.name), ((0, 0), &b""[..]));
}

#[test]
fn a_station_counts_and_adds_up_its_records() {
    let data = b"x;1.0\nyy;-2.5\nx;99.9\nx;-0.1\nyy;0.0\n";
    for mode in 0..3 {
        let part = map_part(data, false, mode);
        let x = part.table.tally_at(0);
        let y = part.table.tally_at(1);
        assert_eq!((x.cnt, x.sum), (3, 10 + 999 - 1));
        assert_eq!((y.cnt, y.sum), (2, -25));
    }
}

#[test]
fn a_record_without_its_end_is_left() {
    for data in [&b"ab;1.0\ncd;2."[..], &b"ab;1.0\ncd"[..], &b"ab;1.0\n"[..]] {
        let mut a = WeatherMap::default();
        let mut b = WeatherMap::default();
        let mut c = WeatherMap::default();
        assert_eq!(decode_lines_a(data, &mut a, false), 1);
        assert_eq!(decode_lines_b(data, &mut b, false), 1);
        assert_eq!(decode_lines_c(data, &mut c, false), 1);
        assert_eq!((a.len(), b.len(), c.len()), (1, 1, 1));
    }
    let mut none = WeatherMap::default();
    assert_eq!(decode_lines_a(b"", &mut none, false), 0);
    assert_eq!(decode_lines_b(b"no separator", &mut none, false), 0);
    assert_eq!(decode_lines_c(b"", &mut none, false), 0);
    assert_eq!(none.len(), 0);
}

#[test]
fn a_dry_run_counts_and_keeps_nothing() {
    let data = SAMPLE.as_bytes();
    let mut m = WeatherMap::default();
    assert_eq!(decode_lines_a(data, &mut m, true), 3);
    assert_eq!(decode_lines_b(data, &mut m, true), 3);
    assert_eq!(decode_lines_c(data, &mut m, true), 3);
    assert_eq!(Group::new(data).for_each(&mut m, true), 3);
    assert_eq!(m.len(), 0);
    assert_eq!(Group::new(data).for_each(&mut m, false), 3);
    assert_eq!(m.len(), 2);
    assert_eq!(m.reset().len(), 0);
}

#[test]
fn the_table_finds_every_station_again() {
    let names: Vec<String> = (0..2000).map(|i| format!("s{}", i * 7919)).collect();
    let mut m = WeatherMap::default();
    for (i, name) in names.iter().enumerate() {
        let city = City::new(name.as_bytes());
        assert!(m.accepts(&city, i as i32));
        m.put((city, i as i32));
        m.put((city, -5));
    }
    let distinct = m.len();
    for (i, name) in names.iter().enumerate() {
        let w = m.get(&City::new(name.as_bytes())).unwrap();
        assert!(w.cnt >= 2 && w.min == -5 && w.max >= i as i32);
    }
    assert_eq!(m.into_table().len(), distinct);
}

#[test]
fn a_sum_that_does_not_fit_is_refused() {
    let mut m = WeatherMap::default();
    let city = City::new(b"hot");
    m.put((city, i32::MAX - 1));
    assert!(m.accepts(&city, 1));
    assert!(!m.accepts(&city, 2));
    assert!(m.accepts(&City::new(b"new"), i32::MAX));
}

#[test]
fn line_feeds_are_found() {
    let data = b"0123456789012345678901234567890123456789\n12";
    assert_eq!(find_newline(data, 0), Some(40));
    assert_eq!(find_newline(data, 40), Some(40));
    assert_eq!(find_newline(data, 41), None);
    assert_eq!(find_newline(b"\n", 0), Some(0));
    assert_eq!(find_newline(b"", 0), None);
}

#[test]
fn pieces_end_with_a_record() {
    let data = b"a;1.0\nbb;2.0\nccc;3.0\n";
    let mut pieces = Vec::new();
    let mut s = Scanner::new(data, 3);
    while let Some(p) = s.next() {
        pieces.push(p);
    }
    assert_eq!(pieces, vec![&b"a;1.0\n"[..], &b"bb;2.0\n"[..], &b"ccc;3.0\n"[..]]);
    assert_eq!(s.next(), None);
    let mut s = Scanner::new(data, 6);
    assert_eq!(s.next(), Some(&b"a;1.0\nbb;2.0\n"[..]));
    assert_eq!(s.next(), Some(&b"ccc;3.0\n"[..]));
    assert_eq!(Scanner::new(data, usize::MAX).next(), Some(&data[..]));
    assert_eq!(Scanner::new(b"no end", 2).next(), Some(&b"no end"[..]));
    assert_eq!(Scanner::new(b"", 2).next(), None);
    let mut joined = Vec::new();
    let mut s = Scanner::new(data, 0);
    while let Some(p) = s.next() {
        joined.extend_from_slice(p);
    }
    assert_eq!(&joined, data);
}

#[test]
fn the_plan_shares_data_and_cache() {
    let cpu = Some(Cpu { processor: Some(3), cache_size: Some(1000) });
    assert_eq!(plan(10_000, None, None, cpu), (4, 2500));
    assert_eq!(plan(400, None, None, cpu), (4, 250));
    assert_eq!(plan(10_000, Some(7), Some(2), cpu), (2, 500));
    assert_eq!(plan(10_000, Some(700), Some(0), cpu), (1, 1000));
    let unknown = Some(Cpu { processor: None, cache_size: Some(0) });
    assert_eq!(plan(10_000, None, None, unknown), (1, 10_000));
    assert_eq!(plan(10_000, None, Some(8), None), (1, 1 << 20));
}

#[test]
fn the_report_is_sorted_by_length_and_fingerprint() {
    let data = b"bb;1.0\na;2.0\nb;-3.0\na;3.1\n";
    let cpu = Some(Cpu { processor: Some(0), cache_size: Some(0) });
    for mode in 0..3 {
        let r = reduce(data, Some(1), Some(3), false, mode, cpu);
        assert_eq!(r.part.total, 4);
        assert_eq!(r.part.miss, 0);
        assert_eq!(r.cores, 3);
        assert_eq!(report(&r), "{a=2.0/2.6/3.1, b=-3.0/-3.0/-3.0, bb=1.0/1.0/1.0}\n");
    }
    let none = reduce(data, None, None, false, 7, None);
    assert_eq!((none.part.total, report(&none)), (0, "{}\n".to_string()));
    let dry = reduce(data, None, None, true, 2, None);
    assert_eq!((dry.part.total, report(&dry)), (4, "{}\n".to_string()));
}

#[test]
fn slices_make_no_difference() {
    let mut data = Vec::new();
    for i in 0..100usize {
        data.extend_from_slice(format!("city{};{}.{}\n", i % 7, i % 100, i % 10).as_bytes());
    }
    let whole = report(&reduce(&data, Some(data.len()), None, false, 2, None));
    let cpu = Some(Cpu { processor: Some(0), cache_size: Some(0) });
    for slice in [1, 10, 33, 100, 499] {
        for mode in 0..3 {
            let r = reduce(&data, Some(slice), None, false, mode, cpu);
            assert_eq!(r.part.total, 100);
            assert_eq!(report(&r), whole);
        }
    }
}

#[test]
fn merging_does_not_depend_on_the_order() {
    let one = b"a;1.0\nb;2.0\n";
    let two = b"b;4.0\nc;-9.9\n";
    let ab = combine(map_part(one, false, 2), map_part(two, false, 2));
    let ba = combine(map_part(two, false, 2), map_part(one, false, 2));
    assert_eq!((ab.total, ba.total), (4, 4));
    let ab = report(&Reduce { part: ab, cores: 1 });
    let ba = report(&Reduce { part: ba, cores: 1 });
    assert_eq!(ab, ba);
    assert_eq!(ab, "{a=1.0/1.0/1.0, b=2.0/3.0/4.0, c=-9.9/-9.9/-9.9}\n");
}

#[test]
fn what_cannot_be_merged_is_refused() {
    let part = |sum: i32, cnt: u32| {
        let mut table = Table::new();
        let city = City::new(b"x");
        table.add_row(city, Weather { cnt, sum, min: 0, max: 0, fp: city.fp });
        Part { table, total: 1, miss: 0 }
    };
    assert!(can_combine(&part(1, 1), &part(i32::MAX - 1, 1)));
    assert!(!can_combine(&part(2, 1), &part(i32::MAX - 1, 1)));
    assert!(!can_combine(&part(1, 1), &part(1, u32::MAX)));
    let mut full = part(1, 1);
    full.total = u64::MAX;
    assert!(!can_combine(&part(1, 1), &full));
}

#[test]
fn pieces_that_cannot_be_read_are_refused() {
    assert!(is_readable(b"a;1.0\n") && is_readable(b"") && is_readable(b"a;what"));
    assert!(!is_readable(b";1.0\n") && !is_readable(b"a;\n") && !is_readable(b"a;1.0\nb;100.0\n"));
    assert!(is_alternating(b"a;1.0\nb;2.0\n"));
    assert!(!is_alternating(b"a\nb;2.0\n") && !is_alternating(b"a;1;0\n"));
    assert!(has_no_look_alike(b"a;1.0\n", b';') && !has_no_look_alike(b"a;:0\n", b';'));
    assert!(is_spread(b"a;1.0\nb;1.0\nc;1.0\nd;1.0\n", b';') && !is_spread(b";;;;", b';'));
    assert!(is_spread(b";____;____;____;", b';') == false && is_spread(b";____;____;_____;", b';'));
    for mode in 0..3 {
        assert!(check_part(b"a;1.0\n", false, mode));
        assert!(!check_part(b"a;1000.0\n", false, mode));
        assert!(map_checked(b"a;1000.0\n", true, mode).is_none());
        assert_eq!(map_checked(b"a;1.0\nb;2.0\n", false, mode).unwrap().total, 2);
    }
    assert!(check_part(b"a\nb;2.0\n", false, 2) && !check_part(b"a\nb;2.0\n", false, 0));
    assert!(check_part(b"anything", false, 3));
}

#[test]
fn a_checked_result_is_the_same_or_none() {
    let data = b"bb;1.0\na;2.0\nb;-3.0\na;3.1\n";
    let cpu = Some(Cpu { processor: Some(0), cache_size: Some(0) });
    for mode in 0..3 {
        let r = reduce_checked(data, Some(1), None, false, mode, cpu).unwrap();
        assert_eq!(report(&r), report(&reduce(data, Some(1), None, false, mode, cpu)));
        assert!(reduce_checked(b"a;1.0\nb;1000.0\n", None, None, false, mode, cpu).is_none());
        assert!(reduce_checked(b"", None, None, false, mode, cpu).is_none());
    }
    let unknown = Some(Cpu { processor: Some(0), cache_size: None });
    assert!(!check_cpu(None, unknown));
    assert!(reduce_checked(data, None, None, false, 2, unknown).is_none());
    let last = Some(Cpu { processor: Some(usize::MAX), cache_size: Some(1) });
    assert!(!check_cpu(None, last) && check_cpu(Some(1), last) && check_cpu(None, None));
}

#[test]
fn separators_can_be_taken_out_again() {
    for n in [0u64, 7, 42, 999, 1000, 12_345, 123_456, 1_234_567, u64::MAX] {
        assert_eq!(text(n.format(0)).replace(',', ""), n.to_string());
    }
}

#[test]
fn the_mean_lies_between_lowest_and_highest() {
    let mut w = Weather::new(((0, 0), 999));
    for t in [-999, 3, 3, -1, 998, 0] {
        w.add_value(t);
        let shown = weather_text(&w);
        let v: Vec<f64> = shown.split('/').map(|x| x.parse().unwrap()).collect();
        assert!(v[0] <= v[1] && v[1] <= v[2]);
    }
    assert_eq!(weather_text(&w), "-99.9/14.3/99.9");
}

#[test]
fn the_order_of_records_makes_no_difference() {
    let lines = ["a;1.0\n", "b;-2.5\n", "a;3.9\n", "c;0.0\n", "b;99.9\n"];
    let there: String = lines.concat();
    let back: String = lines.iter().rev().copied().collect();
    let x = report(&reduce(there.as_bytes(), None, None, false, 2, None));
    let y = report(&reduce(back.as_bytes(), None, None, false, 2, None));
    assert_eq!(x, y);
    assert_eq!(x, "{a=1.0/2.5/3.9, b=-2.5/48.7/99.9, c=0.0/0.0/0.0}\n");
}

#[test]
fn many_stations_have_room() {
    let mut data = Vec::new();
    for i in 0..10_000u32 {
        data.extend_from_slice(format!("{:05};99.9\n", i).as_bytes());
    }
    for mode in 0..3 {
        let part = map_checked(&data, false, mode).unwrap();
        assert_eq!((part.total, part.table.len()), (10_000, 10_000));
    }
}
