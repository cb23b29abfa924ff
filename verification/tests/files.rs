use rs_1brc::bench::reduce::{reduce, Cpu};
use rs_1brc::exact;
use rs_1brc::generate::{city_names, max_cities, scaled, size_text, unit_name, Cities, Draw};
use rs_1brc::mapping::{footer, Finish, MapError, Mmap, CHUNK_PAGES};

fn text(bytes: Vec<u8>) -> String {
    String::from_utf8(bytes).unwrap()
}

#[test]
fn the_number_of_cities_is_bounded() {
    assert_eq!(max_cities(0), 1);
    assert_eq!(max_cities(1), 1);
    assert_eq!(max_cities(413), 413);
    assert_eq!(max_cities(10_000), 10_000);
    assert_eq!(max_cities(10_001), 10_000);
}

#[test]
fn a_template_names_each_city_once() {
    let data = b"# comment;1\nTokyo;35.6\r\nJakarta;-6.2\nTokyo;0.0\n\nDelhi";
    let names = city_names(data);
    assert_eq!(names, vec![&b""[..], &b"Delhi"[..], &b"Jakarta"[..], &b"Tokyo"[..]]);
    assert!(city_names(b"").is_empty());
    assert!(city_names(b"#only\n#comments").is_empty());
    assert_eq!(city_names(b"a\r"), vec![&b"a\r"[..]]);
    assert_eq!(city_names(b"a\r\n"), vec![&b"a"[..]]);
}

#[test]
fn cities_are_selected_from_a_random_start() {
    let names: Vec<&[u8]> = vec![b"a", b"b", b"c", b"d", b"e"];
    let mut buf = Vec::new();
    let mut c = Cities::select(&names, 2, 7);
    assert_eq!(c.len(), 2);
    assert_eq!(c.used_count(), 0);
    c.write_record(Draw { city: 4, sign: 149, tenths: 1234 }, &mut buf);
    c.write_record(Draw { city: 2, sign: 150, tenths: 5 }, &mut buf);
    assert_eq!(text(buf), "b;-23.4\nb;0.5\n");
    assert_eq!(c.used_count(), 1);
    assert_eq!(Cities::select(&names, 5, 7).len(), 5);
    assert_eq!(Cities::select(&names, 9, 7).len(), 5);
}

#[test]
fn what_is_generated_is_read_back() {
    let names: Vec<&[u8]> = vec![b"Abidjan", b"Zanzibar City", b"x"];
    let mut cities = Cities::select(&names, 3, 0);
    let mut data = Vec::new();
    for i in 0..50usize {
        cities.write_record(Draw { city: i, sign: i * 37, tenths: i * 991 }, &mut data);
    }
    assert_eq!(cities.used_count(), 3);
    let mut want = [(0u32, 0i32, i32::MAX, i32::MIN); 3];
    for i in 0..50usize {
        let t = ((i * 991) % 1000) as i32 * if (i * 37) % 100 < 50 { -1 } else { 1 };
        let w = &mut want[i % 3];
        *w = (w.0 + 1, w.1 + t, w.2.min(t), w.3.max(t));
    }
    let cpu = Some(Cpu { processor: Some(0), cache_size: Some(0) });
    for mode in 0..3 {
        let r = reduce(&data, Some(64), None, false, mode, cpu);
        assert_eq!(r.part.total, 50);
        assert_eq!(r.part.table.len(), 3);
        for i in 0..3 {
            let city = r.part.table.city_at(i);
            let k = names.iter().position(|n| *n == city.name).unwrap();
            let w = r.part.table.tally_at(i);
            assert_eq!((w.cnt, w.sum, w.min, w.max), want[k]);
        }
    }
    let r = exact::reduce::reduce(&data, Some(64), None, false, None);
    for i in 0..3 {
        assert_eq!(r.part.table.city_at(i).name, names[i]);
        let w = r.part.table.tally_at(i);
        assert_eq!((w.count, w.sum as i32, w.min as i32, w.max as i32), want[i]);
    }
}

#[test]
fn an_empty_name_is_read_back() {
    let names = city_names(b"\nx;1\n");
    assert_eq!(names, vec![&b""[..], &b"x"[..]]);
    let mut cities = Cities::select(&names, 2, 0);
    let mut data = Vec::new();
    let draws = [
        Draw { city: 0, sign: 10, tenths: 15 },
        Draw { city: 1, sign: 90, tenths: 20 },
        Draw { city: 0, sign: 90, tenths: 999 },
    ];
    cities.write_records(&draws, &mut data);
    assert_eq!(text(data.clone()), ";-1.5\nx;2.0\n;99.9\n");
    let r = exact::reduce::reduce(&data, None, None, false, None);
    assert_eq!((r.part.total, r.part.table.len()), (3, 2));
    assert_eq!(r.part.table.city_at(0).name, b"");
    let w = r.part.table.tally_at(0);
    assert_eq!((w.count, w.sum, w.min, w.max), (2, 984, -15, 999));
}

#[test]
fn records_are_written_one_after_the_other() {
    let names: Vec<&[u8]> = vec![b"Abidjan", b"Zanzibar City", b"x", b"never"];
    let draw = |i: usize| Draw { city: i % 3, sign: i * 37, tenths: i * 991 };
    let draws: Vec<Draw> = (0..50).map(draw).collect();
    let mut one = Cities::select(&names, 4, 0);
    let mut single = b"before\n".to_vec();
    for i in 0..50 {
        one.write_record(draw(i), &mut single);
    }
    let mut all = Cities::select(&names, 4, 0);
    let mut run = b"before\n".to_vec();
    all.write_records(&draws[..20], &mut run);
    all.write_records(&[], &mut run);
    all.write_records(&draws[20..], &mut run);
    assert_eq!(text(run), text(single));
    assert_eq!((one.used_count(), all.used_count()), (3, 3));
}

#[test]
fn sizes_are_shown_in_units() {
    let show = |len: u64| {
        let (size, unit) = size_text(len);
        format!("{} {}", text(size), unit_name(unit))
    };
    assert_eq!(show(0), "0.000 Bytes");
    assert_eq!(show(1023), "1,023.000 Bytes");
    assert_eq!(show(1024), "1.000 KiB");
    assert_eq!(show(1536), "1.500 KiB");
    assert_eq!(show(1024 * 1024 - 1), "1,024.000 KiB");
    assert_eq!(show(13_795_406_377), "12.850 GiB");
    assert_eq!(show(3 << 40), "3.000 TiB");
    assert_eq!(show(5000 << 40), "5,000.000 TiB");
    assert_eq!(scaled(1 << 20), (100, 2));
}

#[test]
fn files_that_cannot_be_mapped() {
    let e = Mmap::open::<true>(0, -1, false).err().unwrap();
    assert!(e == MapError::UnknownPageSize);
    assert_eq!(e.message(), "Unknown page size");
    let e = Mmap::open::<false>(0, 4096, false).err().unwrap();
    assert!(e == MapError::EmptyFile);
    assert_eq!(e.message(), "Empty file");
}

#[test]
fn a_file_is_written_part_by_part() {
    let mut m = Mmap::open::<true>(0, 1, false).ok().unwrap();
    assert_eq!((m.chunk(), m.remain(), m.filled()), (CHUNK_PAGES, 0, 0));
    let mut left = 2 * CHUNK_PAGES + 100;
    let mut places = Vec::new();
    while left > 0 {
        let at = m.offset() + m.filled() as u64;
        let (n, map) = m.write(left);
        if n > 0 {
            places.push((at, n));
        }
        left -= n;
        if map {
            m.next_map();
        }
    }
    let chunk = CHUNK_PAGES as u64;
    assert_eq!(places, vec![(0, CHUNK_PAGES), (chunk, CHUNK_PAGES), (2 * chunk, 100)]);
    assert_eq!((m.offset(), m.length(), m.filled()), (2 * chunk, 3 * chunk, 100));
    let done = m.finish();
    assert!(matches!(done, Finish::Cut(n) if n == 2 * chunk + 100));
    assert_eq!(m.length(), 2 * chunk + 100);
    assert!(matches!(m.finish(), Finish::Nothing));
}

/// Writes into a file as its parts are mapped, and ends it.
fn written(pieces: &[&[u8]], hugepages: bool) -> Vec<u8> {
    let mut m = Mmap::open::<true>(0, 1, hugepages).ok().unwrap();
    let mut file: Vec<u8> = Vec::new();
    for piece in pieces {
        let mut done = 0;
        while done < piece.len() {
            let at = m.offset() as usize + m.filled();
            let (n, map) = m.write(piece.len() - done);
            file[at..at + n].copy_from_slice(&piece[done..done + n]);
            done += n;
            if map {
                m.next_map();
                file.resize(m.length() as usize, 0);
            }
        }
    }
    match m.finish() {
        Finish::Nothing => {}
        Finish::Cut(n) => file.resize(n as usize, 0),
        Finish::Note { length, map } => {
            if map {
                m.next_map();
                file.resize(m.length() as usize, 0);
            }
            let at = m.offset() as usize + m.footer_at();
            file[at..at + 8].copy_from_slice(&footer(length));
        }
    }
    file
}

#[test]
fn a_file_holds_what_was_written() {
    let bytes: Vec<u8> = (0..3 * CHUNK_PAGES + 77).map(|i| (i * 31 % 251) as u8).collect();
    for len in [1, CHUNK_PAGES - 8, CHUNK_PAGES - 7, CHUNK_PAGES, CHUNK_PAGES + 1, bytes.len()] {
        let pieces: Vec<&[u8]> = bytes[..len].chunks(4099).collect();
        assert!(written(&pieces, false) == bytes[..len]);
        let file = written(&pieces, true);
        assert_eq!(file.len() % CHUNK_PAGES, 0);
        let mut r = Mmap::open::<false>(file.len() as u64, 1, true).ok().unwrap();
        r.load(&file);
        assert_eq!((r.length(), r.filled()), (len as u64, len));
        assert!(file[..r.filled()] == bytes[..len]);
    }
}

#[test]
fn a_full_part_is_followed_by_the_next() {
    let mut m = Mmap::open::<true>(0, 1, false).ok().unwrap();
    m.next_map();
    assert_eq!(m.write(CHUNK_PAGES), (CHUNK_PAGES, true));
    m.next_map();
    assert_eq!((m.offset(), m.filled(), m.remain()), (CHUNK_PAGES as u64, 0, CHUNK_PAGES));
}

#[test]
fn huge_pages_note_the_length_at_their_end() {
    let mut m = Mmap::open::<true>(0, 1, true).ok().unwrap();
    m.next_map();
    m.write(5);
    assert!(matches!(m.finish(), Finish::Note { length: 5, map: false }));
    assert_eq!(m.length(), CHUNK_PAGES as u64);
    let mut file = vec![0u8; CHUNK_PAGES];
    let at = m.footer_at();
    file[at..].copy_from_slice(&footer(5));
    let mut r = Mmap::open::<false>(file.len() as u64, 1, true).ok().unwrap();
    r.load(&file);
    assert_eq!((r.length(), r.filled()), (5, 5));

    let mut m = Mmap::open::<true>(0, 1, true).ok().unwrap();
    m.next_map();
    m.write(CHUNK_PAGES - 7);
    assert!(matches!(m.finish(), Finish::Note { map: true, .. }));
    assert_eq!(footer(0x0102_0304_0506_0708), [8, 7, 6, 5, 4, 3, 2, 1]);
}

#[test]
fn a_file_is_read_as_a_whole() {
    let data = b"a;1.0\n";
    let mut m = Mmap::open::<false>(6, 4096, false).ok().unwrap();
    assert_eq!(m.chunk(), 6);
    m.load(data);
    assert_eq!((m.length(), m.filled(), m.remain()), (6, 6, 0));
    assert!(matches!(m.finish(), Finish::Nothing));
}

#[test]
fn names_in_a_template_are_plain() {
    for name in city_names(b"Abc;1;2\nx\r\n#no\n;empty\ny;\n") {
        assert!(!name.contains(&b';') && !name.contains(&b'\n'));
    }
}
