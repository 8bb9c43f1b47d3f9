use wakformat::error::{Error, ErrorKind};
use wakformat::interleave::{
    combined_size, data_size, output_size, whole_file, Mixer, Scan, Section,
};

fn bad(message: &str) -> Error {
    Error { kind: ErrorKind::InvalidData, message: message.to_owned() }
}

fn section(start: u64, bytes: u64) -> Section {
    Section { input: 3, start, bytes }
}

#[test]
fn sizes_of_files() {
    assert_eq!(data_size(8), Ok(0));
    assert_eq!(data_size(100), Ok(92));
    assert_eq!(data_size(7), Err(bad("truncated file header")));
    assert_eq!(combined_size(5, 6), Ok(11));
    assert_eq!(combined_size(u64::MAX, 1), Err(bad("combined input size overflows u64")));
    assert_eq!(output_size(92), Ok(100));
    assert_eq!(output_size(u64::MAX - 7), Err(bad("output size overflows u64")));
    assert_eq!(whole_file(3, 9), Some(section(8, 9)));
    assert_eq!(whole_file(3, 0), None);
}

#[test]
fn sections_of_a_file() {
    let mut scan = Scan::new(3, 200);
    assert_eq!(scan.section_size, 7);
    for size in [3, 4, 10, 2] {
        assert_eq!(scan.game(size), Ok(()));
    }
    assert_eq!(scan.sections, vec![section(8, 7), section(15, 10)]);
    assert_eq!(scan.finish(27), Ok(vec![section(8, 7), section(15, 10), section(25, 2)]));
    assert_eq!(Scan::new(3, 0).section_size, 1);
    assert_eq!(Scan::new(3, 32).section_size, 1);
    assert_eq!(Scan::new(3, 33).section_size, 2);
    assert_eq!(Scan::new(3, 0).finish(8), Ok(vec![]));
}

#[test]
fn scans_that_fail() {
    let mut scan = Scan::new(0, u64::MAX - 8);
    assert_eq!(scan.game(u64::MAX - 8), Ok(()));
    assert_eq!(scan.game(1), Err(bad("file size overflows u64")));
    let mut scan = Scan::new(0, 10);
    assert_eq!(scan.game(9), Ok(()));
    assert_eq!(scan.finish(18), Err(bad("file size changed while scanning")));
}

#[test]
fn few_sections_without_gaps() {
    for bytes in 0..300u64 {
        for size in 1..12 {
            let mut scan = Scan::new(3, bytes);
            let mut left = bytes;
            while left > 0 {
                let n = left.min(size);
                assert_eq!(scan.game(n), Ok(()));
                left -= n;
            }
            let sections = scan.finish(8 + bytes).unwrap();
            assert!(sections.len() <= 32);
            let mut end = 8;
            for s in sections {
                assert_eq!(s.start, end);
                assert!(s.bytes > 0);
                end += s.bytes;
            }
            assert_eq!(end, 8 + bytes);
        }
    }
}

#[test]
fn every_byte_belongs_to_one_stream() {
    let m = Mixer::new(&vec![section(8, 2), section(8, 3), section(8, 1)]).unwrap();
    assert_eq!(m.remaining, 6);
    let found: Vec<usize> = (0..6).map(|i| m.locate(i)).collect();
    assert_eq!(found, vec![0, 0, 1, 1, 1, 2]);
}

#[test]
fn streams_are_chosen_at_random() {
    let m = Mixer::new(&vec![section(8, 50), section(8, 50)]).unwrap();
    let picks: Vec<usize> = (0..200).map(|_| m.pick()).collect();
    assert!(picks.contains(&0) && picks.contains(&1));
    assert!(picks.iter().all(|&i| i < 2));
}

#[test]
fn taking_games() {
    let mut m = Mixer::new(&vec![section(8, 5), section(8, 7), section(8, 9)]).unwrap();
    assert_eq!(m.take(0, 2), Ok(false));
    assert_eq!((m.sizes.clone(), m.remaining, m.games), (vec![3, 7, 9], 19, 1));
    assert_eq!(m.take(0, 4), Err(bad("game crosses a section boundary")));
    assert_eq!((m.sizes.clone(), m.remaining, m.games), (vec![3, 7, 9], 19, 1));
    assert_eq!(m.take(0, 3), Ok(true));
    assert_eq!((m.sizes.clone(), m.remaining, m.games), (vec![9, 7], 16, 2));
    assert_eq!(m.take(1, 7), Ok(true));
    assert_eq!(m.take(0, 9), Ok(true));
    assert_eq!((m.sizes.clone(), m.remaining, m.games), (vec![], 0, 4));
}

#[test]
fn mixing_to_the_end() {
    let mut m = Mixer::new(&vec![section(8, 50), section(8, 31), section(8, 4)]).unwrap();
    let mut taken = 0;
    while m.remaining != 0 {
        let i = m.pick();
        let size = m.sizes[i].min(3);
        taken += size;
        m.take(i, size).unwrap();
        assert_eq!(m.sizes.iter().sum::<u64>(), m.remaining);
    }
    assert_eq!(taken, 85);
    assert!(m.sizes.is_empty());
}

#[test]
fn too_much_to_mix() {
    let all = vec![section(8, u64::MAX), section(8, 1)];
    assert_eq!(Mixer::new(&all).err(), Some(bad("combined input size overflows u64")));
}

#[test]
fn mixing_keeps_all_games() {
    let game = |stream: u8, size: usize| vec![stream; size];
    let streams: Vec<Vec<Vec<u8>>> = vec![
        vec![game(1, 3), game(1, 9), game(1, 3)],
        vec![game(2, 5)],
        vec![game(3, 1), game(3, 2), game(3, 3), game(3, 4)],
    ];
    let mut all: Vec<Vec<u8>> = streams.iter().flatten().cloned().collect();
    let sections: Vec<Section> = streams
        .iter()
        .map(|s| section(8, s.iter().map(|g| g.len() as u64).sum()))
        .collect();
    let mut left = streams.clone();
    let mut mixer = Mixer::new(&sections).unwrap();
    let mut mixed = Vec::new();
    while mixer.remaining != 0 {
        let i = mixer.pick();
        let g = left[i].remove(0);
        if mixer.take(i, g.len() as u64).unwrap() {
            left.swap_remove(i);
        }
        mixed.push(g);
    }
    assert_eq!(mixer.games, 8);
    for (k, stream) in streams.iter().enumerate() {
        let own: Vec<Vec<u8>> = mixed.iter().filter(|g| g[0] == k as u8 + 1).cloned().collect();
        assert_eq!(&own, stream);
    }
    all.sort();
    mixed.sort();
    assert_eq!(all, mixed);
}
