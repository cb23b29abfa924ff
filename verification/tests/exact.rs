use rs_1brc::exact::check::{check_cpu, check_part, is_number, map_checked, reduce_checked};
use rs_1brc::exact::city::{same_name, City};
use rs_1brc::exact::decode::decode_lines;
use rs_1brc::exact::find::{find_comma_simd, find_newline};
use rs_1brc::exact::hash::{hash_key, HashKey};
use rs_1brc::exact::number::parse_number;
use rs_1brc::exact::reduce::{can_combine, combine, map_part, plan, reduce, Cpu, Part, Reduce};
use rs_1brc::exact::slots::{home_slot, Slots, BITS_MASK};
use rs_1brc::exact::thousands::ThousandSep;
use rs_1brc::exact::weather::Weather;
use rs_1brc::exact::weather_map::WeatherMap;
use rs_1brc::swar::{find_flags, word_padded, BASE_MASK_CM};
use rs_1brc::table::Table;

fn text(bytes: Vec<u8>) -> String {
    String::from_utf8(bytes).unwrap()
}

fn report(r: &Reduce) -> String {
    let mut buf = Vec::new();
    r.write(&mut buf);
    text(buf)
}

fn weather_text(w: &Weather) -> String {
    let mut buf = Vec::new();
    w.write(&mut buf);
    text(buf)
}

#[test]
fn main_test_parse_number() {
    let val = parse_number("10.9".as_bytes());
    assert_eq!(val, 109);
    let val = parse_number("-10.9".as_bytes());
    assert_eq!(val, -109);
    let val = parse_number("1.0".as_bytes());
    assert_eq!(val, 10);
    let val = parse_number("-1.0".as_bytes());
    assert_eq!(val, -10);
}

#[test]
fn main_test_decode() {
    let data = "aaaaaaaaa;-10.0\naaaaaaaaa;26.0\ndef;2.1\n".as_bytes();
    let mut m = WeatherMap::default();
    decode_lines(data, &mut m, false);
    assert_eq!(m.len(), 2);
    let r = m.get(&City::new("aaaaaaaaa".as_bytes())).unwrap();
    assert_eq!(r.count, 2);
    assert_eq!(r.min, -100);
    assert_eq!(r.max, 260);
    assert_eq!(r.sum, 160);
}

#[test]
fn main_test_swar() {
    const SIZE: usize = 4;
    const MASK: u32 = u32::from_ne_bytes([b';'; SIZE]);
    const MASK1: u32 = u32::from_ne_bytes([0x01; SIZE]);
    const MASK2: u32 = u32::from_ne_bytes([0x80; SIZE]);
    let mut arr = [b'1'; SIZE];
    arr[SIZE - 2] = b';';
    let mut value = u32::from_ne_bytes(arr);
    value ^= MASK;
    println!("{:>32} | {:032b} | {}\n", "value ^ MASK", value, "=>value");
    value = value.wrapping_sub(MASK1) & !value & MASK2;
    println!("{:>32} | {}\n", "value.trailing_zeros()", value.trailing_zeros());
    assert_eq!(value.trailing_zeros() >> 3, (SIZE - 2) as u32);
    assert_eq!(find_comma_simd(&arr), Some(SIZE - 2));
    let flags = find_flags(BASE_MASK_CM, word_padded(&arr, 0));
    assert_eq!(flags.trailing_zeros() >> 3, (SIZE - 2) as u32);
}

#[test]
fn exact_numbers_at_the_edges() {
    assert_eq!(parse_number(b"0.0"), 0);
    assert_eq!(parse_number(b"99.9"), 999);
    assert_eq!(parse_number(b"-99.9"), -999);
    assert_eq!(parse_number(b"7"), 7);
    // low four bits of each byte
    assert_eq!(parse_number(b"::.:"), 1110);
    // a first byte without the fifth bit is a sign
    assert_eq!(parse_number(b"+1.5"), -15);
    assert!(is_number(b"1.0") && is_number(b"-10.0"));
    assert!(!is_number(b"") && !is_number(b"-") && !is_number(b"100.0"));
}

#[test]
fn the_first_delimiter_is_found() {
    let mut data = vec![b'x'; 100];
    assert_eq!(find_comma_simd(&data), None);
    assert_eq!(find_newline(&data), None);
    for i in (0..100).rev() {
        data[i] = b';';
        assert_eq!(find_comma_simd(&data), Some(i));
        data[i] = b'\n';
        assert_eq!(find_newline(&data), Some(i));
    }
    assert_eq!(find_comma_simd(b""), None);
    assert_eq!(find_newline(b""), None);
}

#[test]
fn names_are_compared_byte_by_byte() {
    for len in 0..100usize {
        let a: Vec<u8> = (0..len).map(|i| (i * 7 + 3) as u8).collect();
        assert!(same_name(&a, &a.clone()));
        assert!(City::new(&a) == City::new(&a.clone()));
        for i in 0..len {
            let mut b = a.clone();
            b[i] ^= 0x20;
            assert!(!same_name(&a, &b));
            assert!(City::new(&a) != City::new(&b));
        }
        let mut c = a.clone();
        c.push(0);
        assert!(!same_name(&a, &c));
    }
}

#[test]
fn long_names_are_hashed_by_their_ends() {
    assert!(matches!(hash_key(b""), HashKey::Bytes(b"")));
    assert!(matches!(hash_key(b"0123456789abcde"), HashKey::Bytes(b"0123456789abcde")));
    let first = u64::from_le_bytes(*b"01234567");
    assert!(matches!(hash_key(b"0123456789abcdef"), HashKey::Words(a, b)
        if a == first && b == u64::from_le_bytes(*b"89abcdef")));
    assert!(matches!(hash_key(b"0123456789abcdefghi"), HashKey::Words(a, b)
        if a == first && b == u64::from_le_bytes(*b"bcdefghi")));
}

#[test]
fn hashes_are_folded() {
    assert_eq!(home_slot(0, BITS_MASK), 0);
    assert_eq!(home_slot(1, BITS_MASK), 1);
    assert_eq!(home_slot(1 << 17, BITS_MASK), 0x2001);
    assert_eq!(home_slot(1 << 51, BITS_MASK), 1);
    assert_eq!(home_slot(1 << 3, BITS_MASK), 8);
    assert_eq!(home_slot(u64::MAX, BITS_MASK), 0x1fff);
    assert_eq!(home_slot(1 << 17, 0xff), 1);
    assert_eq!(home_slot(u64::MAX, 0), 0);
}

#[test]
fn slots_are_walked_with_a_stride() {
    let mut s = Slots::new();
    let (a, b, c) = (City::new(b"a"), City::new(b"b"), City::new(b"c"));
    assert_eq!(s.put_at(a, 10, 131070, BITS_MASK), 0);
    assert_eq!(s.put_at(b, 20, 131070, BITS_MASK), 1);
    assert_eq!(s.put_at(c, 30, 95, BITS_MASK), 1);
    assert_eq!(s.put_at(b, -7, 131070, BITS_MASK), 1);
    assert_eq!(s.put_at(c, 31, 95, BITS_MASK), 1);
    assert_eq!(s.len(), 3);
    let w = s.get(&b).unwrap();
    assert_eq!((w.count, w.sum, w.min, w.max), (2, 13, -7, 20));
    assert_eq!(s.find_at(&c, 95).unwrap().sum, 61);
    assert!(s.find_at(&City::new(b"d"), 0).is_none());
    // a station is found from anywhere
    assert_eq!(s.find_at(&b, 77).unwrap().sum, 13);
    assert_eq!(s.put_at(b, 100, 77, BITS_MASK), 0);
    assert_eq!((s.len(), s.get(&b).unwrap().sum), (3, 113));
    s.clear();
    assert_eq!(s.len(), 0);
    assert!(s.get(&a).is_none());
}

#[test]
fn stations_with_one_home_queue_up() {
    let names: Vec<String> = (0..2000).map(|i| format!("n{}", i)).collect();
    let mut s = Slots::new();
    for (i, name) in names.iter().enumerate() {
        assert_eq!(s.put_at(City::new(name.as_bytes()), 1, BITS_MASK, BITS_MASK), i);
    }
    assert_eq!(s.len(), 2000);
    assert_eq!(s.put_at(City::new(b"n1999"), 2, BITS_MASK, BITS_MASK), 1999);
    // the walk passes the highest slot
    assert_eq!(s.put_at(City::new(b"n1"), 2, 96, BITS_MASK), 0);
    assert_eq!(s.get(&City::new(b"n1")).unwrap().sum, 3);
}

#[test]
fn the_exact_table_finds_every_station_again() {
    let names: Vec<String> = (0..3000).map(|i| format!("a station with the number {}", i)).collect();
    let mut m = WeatherMap::default();
    for (i, name) in names.iter().enumerate() {
        let city = City::new(name.as_bytes());
        assert!(m.accepts(&city, 3));
        m.put::<BITS_MASK>(city, i as i16);
        m.put::<BITS_MASK>(city, -1);
    }
    assert_eq!(m.len(), 3000);
    for i in [0usize, 1, 999, 2999] {
        let w = m.get(&City::new(names[i].as_bytes())).unwrap();
        assert_eq!((w.count, w.sum, w.min, w.max), (2, i as i64 - 1, -1, i as i16));
    }
    let mut seen = 0;
    let mut it = m.iter();
    while let Some((city, weather)) = it.next() {
        assert!(city.name.starts_with(b"a station"));
        assert_eq!(weather.count, 2);
        seen += 1;
    }
    assert_eq!(seen, 3000);
    assert!(it.next().is_none());
}

#[test]
fn an_exact_table_is_emptied() {
    let mut m = WeatherMap::default();
    m.put::<BITS_MASK>(City::new(b"x"), 1);
    assert_eq!(m.len(), 1);
    assert_eq!(m.reset().len(), 0);
    assert!(m.get(&City::new(b"x")).is_none());
    m.put::<BITS_MASK>(City::new(b"x"), 5);
    assert_eq!(m.get(&City::new(b"x")).unwrap().min, 5);
}

#[test]
fn exact_weather_keeps_the_sign_of_its_mean() {
    let mut w = Weather::new(-1);
    w.add_value(0);
    w.add_value(0);
    assert_eq!(weather_text(&w), "-0.1/-0.0/0.0");
    let mut v = Weather::from(25);
    v.add_assign(w);
    assert_eq!((v.count, v.sum, v.min, v.max), (4, 24, -1, 25));
    assert_eq!(weather_text(&v), "-0.1/0.6/2.5");
    assert_eq!(weather_text(&Weather::new(-1234)), "-123.4/-123.4/-123.4");
}

#[test]
fn exact_thousands_have_a_dot_only_with_a_fraction() {
    assert_eq!(text(1234567usize.format(3)), "1,234,567");
    assert_eq!(text(b"1234.5".format(3)), "1,234.500");
    assert_eq!(text(b"12.3456".format(3)), "12.345");
    assert_eq!(text(b"12.5".format(0)), "12");
}

#[test]
fn exact_decode_reads_any_name() {
    let mut m = WeatherMap::default();
    let (total, miss) = decode_lines(b";1.0\nx\ny;2.0\nz;:3.0\nrest;4", &mut m, true);
    assert_eq!((total, miss, m.len()), (3, 0, 0));
    let (total, _) = decode_lines(b";1.0\nx\ny;2.0\n", &mut m, false);
    assert_eq!((total, m.len()), (2, 2));
    assert_eq!(m.get(&City::new(b"")).unwrap().sum, 10);
    assert_eq!(m.get(&City::new(b"x\ny")).unwrap().sum, 20);
}

#[test]
fn the_exact_plan_uses_cores() {
    let cpu = Some(Cpu { cpu_cores: Some(4), cache_size: Some(1000) });
    assert_eq!(plan(10_000, None, None, cpu), (4, 2500));
    assert_eq!(plan(10_000, Some(7), Some(2), cpu), (2, 500));
    assert_eq!(plan(10_000, None, Some(0), cpu), (1, 10_000));
    assert_eq!(plan(10_000, None, Some(8), None), (1, 1 << 20));
}

#[test]
fn the_exact_report_is_sorted_by_name() {
    let data = b"bb;1.0\nc;2.0\nb;-3.0\nc;3.1\n";
    let cpu = Some(Cpu { cpu_cores: Some(1), cache_size: Some(0) });
    for slice in [1, 8, 100] {
        let r = reduce(data, Some(slice), None, false, cpu);
        assert_eq!(r.part.total, 4);
        assert_eq!(report(&r), "{b=-3.0/-3.0/-3.0, bb=1.0/1.0/1.0, c=2.0/2.6/3.1}\n");
    }
    let dry = reduce(data, None, None, true, None);
    assert_eq!((dry.part.total, report(&dry)), (4, "{}\n".to_string()));
}

#[test]
fn exact_merging_does_not_depend_on_the_order() {
    let one = b"a;1.0\nb;2.0\n";
    let two = b"b;4.0\nc;-9.9\n";
    let ab = combine(map_part(one, false).0, map_part(two, false).0);
    let ba = combine(map_part(two, false).0, map_part(one, false).0);
    let ab = report(&Reduce { part: ab });
    assert_eq!(ab, report(&Reduce { part: ba }));
    assert_eq!(ab, "{a=1.0/1.0/1.0, b=2.0/3.0/4.0, c=-9.9/-9.9/-9.9}\n");
}

#[test]
fn exact_parts_that_do_not_fit_are_refused() {
    let part = |sum: i64, count: u32| {
        let mut table = Table::new();
        table.add_row(City::new(b"x"), Weather { count, sum, min: 0, max: 0 });
        Part { table, total: 1 }
    };
    assert!(can_combine(&part(1, 1), &part(i64::MAX - 1, 1)));
    assert!(!can_combine(&part(2, 1), &part(i64::MAX - 1, 1)));
    assert!(!can_combine(&part(1, 1), &part(1, u32::MAX)));
    assert!(check_part(b"a;1.0\n", false) && !check_part(b"a;100.00\n", false));
    assert!(map_checked(b"a;1000.0\n", false).is_none());
    assert_eq!(map_checked(b"a;1.0\n;2.0\n", false).unwrap().0.total, 2);
}

#[test]
fn two_lots_are_read_into_one_exact_table() {
    let a = b"x;1.0\n;2.0\n";
    let b = b";-4.0\nz;8.8\n";
    let both: Vec<u8> = [&a[..], &b[..]].concat();
    let mut one = WeatherMap::default();
    let mut two = WeatherMap::default();
    assert_eq!(decode_lines(&both, &mut one, false).0, 4);
    assert_eq!(decode_lines(a, &mut two, false).0, 2);
    assert_eq!(decode_lines(b, &mut two, true), (2, 0));
    assert_eq!(two.len(), 2);
    assert_eq!(decode_lines(b, &mut two, false).0, 2);
    assert_eq!((one.len(), two.len()), (3, 3));
    for name in [&b"x"[..], &b""[..], &b"z"[..]] {
        let (p, q) = (one.get(&City::new(name)).unwrap(), two.get(&City::new(name)).unwrap());
        assert_eq!((p.count, p.sum, p.min, p.max), (q.count, q.sum, q.min, q.max));
    }
}

#[test]
fn an_exact_dry_run_reads_no_temperature() {
    let data = b"a;1000.0\nb;\nc;100000\n";
    let mut m = WeatherMap::default();
    assert_eq!(decode_lines(data, &mut m, true), (3, 0));
    assert_eq!(m.len(), 0);
    assert!(check_part(data, true) && !check_part(data, false));
    let (part, miss) = map_checked(data, true).unwrap();
    assert_eq!((part.total, part.table.len(), miss), (3, 0, 0));
    let r = reduce_checked(data, Some(1), None, true, None).unwrap();
    assert_eq!((r.part.total, report(&r)), (3, "{}\n".to_string()));
    assert!(reduce_checked(data, Some(1), None, false, None).is_none());
}

#[test]
fn a_put_passes_the_same_slots_again() {
    let names: Vec<String> = (0..200).map(|i| format!("station {}", i)).collect();
    let mut m = WeatherMap::default();
    let mut first = Vec::new();
    for (i, name) in names.iter().enumerate() {
        let miss = m.put::<0xff>(City::new(name.as_bytes()), 1);
        assert!(miss <= i);
        first.push(miss);
    }
    assert_eq!(first[0], 0);
    assert!(first.iter().sum::<usize>() > 0);
    for (name, miss) in names.iter().zip(&first) {
        assert_eq!(m.put::<0xff>(City::new(name.as_bytes()), 3), *miss);
    }
    assert_eq!(m.len(), 200);
    let w = m.get(&City::new(b"station 7")).unwrap();
    assert_eq!((w.count, w.sum), (2, 4));
}

#[test]
fn fewer_slots_are_filled_to_the_last() {
    let names: Vec<String> = (0..8).map(|i| format!("n{}", i)).collect();
    let mut s = Slots::new();
    for (i, name) in names.iter().enumerate() {
        assert_eq!(s.put_at(City::new(name.as_bytes()), 1, 3, 7), i);
    }
    for (i, name) in names.iter().enumerate() {
        assert_eq!(s.put_at(City::new(name.as_bytes()), 1, 3, 7), i);
    }
    assert_eq!(s.len(), 8);
    s.clear();
    assert_eq!(s.put_at(City::new(b"one"), 1, 0, 0), 0);
    assert_eq!(s.put_at(City::new(b"one"), 1, 0, 0), 0);
    assert_eq!((s.len(), s.get(&City::new(b"one")).unwrap().count), (1, 2));
    let mut m = WeatherMap::default();
    for name in &names {
        assert!(m.put::<7>(City::new(name.as_bytes()), 1) < 8);
    }
    assert_eq!(m.len(), 8);
    assert_eq!(m.reset().put::<BITS_MASK>(City::new(b"n0"), 1), 0);
}

#[test]
fn misses_are_added_up() {
    let (_, miss) = map_part(b"a;1.0\na;2.0\na;3.0\n", false);
    assert_eq!(miss, 0);
    let mut one = Vec::new();
    let mut two = Vec::new();
    for i in 0..30_000 {
        one.extend_from_slice(format!("s{};1.0\n", i).as_bytes());
        two.extend_from_slice(format!("s{};1.0\n", i % 3).as_bytes());
    }
    let mut m = WeatherMap::default();
    let (total, first) = decode_lines(&one, &mut m, false);
    assert_eq!((total, m.len()), (30_000, 30_000));
    assert!(first > 0);
    // each station passes as many slots again
    assert_eq!(decode_lines(&one, &mut m, false), (30_000, first));
    let (total, miss) = decode_lines(&two, &mut m, false);
    assert_eq!((total, miss % 10_000), (30_000, 0));
}

#[test]
fn an_exact_station_counts_and_adds_up_its_records() {
    let (part, _) = map_part(b"x;1.0\nyy;-2.5\nx;99.9\nx;-0.1\nyy;0.0\n", false);
    let x = part.table.tally_at(0);
    let y = part.table.tally_at(1);
    assert_eq!((x.count, x.sum), (3, 10 + 999 - 1));
    assert_eq!((y.count, y.sum), (2, -25));
}

#[test]
fn a_checked_exact_result_is_the_same_or_none() {
    let data = b"bb;1.0\na;2.0\nb;-3.0\na;3.1\n";
    let cpu = Some(Cpu { cpu_cores: Some(1), cache_size: Some(0) });
    let r = reduce_checked(data, Some(1), None, false, cpu).unwrap();
    assert_eq!(report(&r), report(&reduce(data, Some(1), None, false, cpu)));
    assert!(reduce_checked(b"a;1.0\nb;1000.0\n", None, None, false, cpu).is_none());
    assert!(reduce_checked(b"", None, None, false, cpu).is_none());
    let unknown = Some(Cpu { cpu_cores: None, cache_size: Some(1) });
    assert!(!check_cpu(unknown) && check_cpu(cpu) && check_cpu(None));
    assert!(reduce_checked(data, None, Some(2), false, unknown).is_none());
    let city: City = (&b"name"[..]).into();
    assert!(city == City::new(b"name"));
}
