use orbitive::cell::text::{copied_text, copy_is_whole, text_header};
use orbitive::cell::{
    cell_header, CellId, Cells, Claim, Error, FloatBits, Orbital, TextId, WaitStep, CELL_CAPACITY,
    CELL_TEXT_CAPACITY, CELL_TEXT_MAX,
};

#[test]
fn a_cell_is_the_same_place_through_every_handle() {
    let mut cells = Cells::new();
    let counter = cells.allocate(0_i64).expect("allocate");
    let elsewhere = cells.open::<i64>(counter.id()).expect("open by id");

    assert_eq!(counter.fetch_add(&mut cells, 1).expect("add"), 1);
    assert_eq!(elsewhere.fetch_add(&mut cells, 5).expect("add"), 6);
    assert_eq!(elsewhere.fetch_sub(&mut cells, 2).expect("sub"), 4);
    assert_eq!(counter.load(&cells).expect("load"), 4);
    assert_eq!(counter.swap(&mut cells, 10).expect("swap"), 4);
    assert_eq!(
        elsewhere.compare_exchange(&mut cells, 10, 11).expect("cas"),
        Ok(10)
    );
    assert_eq!(
        elsewhere.compare_exchange(&mut cells, 10, 12).expect("cas"),
        Err(11)
    );
}

/// Adds to a float, as a loop over the cell's exchange does.
fn add_float(cell: &Orbital<FloatBits>, cells: &mut Cells, by: f64) -> Result<f64, Error> {
    let mut current = cell.load(cells)?;
    loop {
        let sum = f64::from_bits(current.0) + by;
        match cell.compare_exchange(cells, current, FloatBits(sum.to_bits()))? {
            Ok(_) => return Ok(sum),
            Err(actual) => current = actual,
        }
    }
}

#[test]
fn every_type_keeps_its_own_bits() {
    let mut cells = Cells::new();
    let float = cells.allocate(FloatBits(0.5_f64.to_bits())).expect("float");
    assert_eq!(add_float(&float, &mut cells, 0.25).expect("add"), 0.75);
    let unsigned = cells.allocate(u64::MAX - 1).expect("unsigned");
    assert_eq!(unsigned.fetch_add(&mut cells, 1).expect("add"), u64::MAX);
    assert!(matches!(
        unsigned.fetch_add(&mut cells, 1),
        Err(Error::Overflow)
    ));
    assert_eq!(unsigned.fetch_sub(&mut cells, u64::MAX).expect("sub"), 0);
    let flag = cells.allocate(false).expect("flag");
    assert!(!flag.set(&mut cells).expect("set"));
    assert!(flag.set(&mut cells).expect("set again"));
    assert!(flag.clear(&mut cells).expect("clear"));
}

#[test]
fn the_type_is_stamped_on_the_cell() {
    let mut cells = Cells::new();
    let counter = cells.allocate(7_i64).expect("allocate");
    let wrong = cells.open::<FloatBits>(counter.id());
    assert!(matches!(
        wrong,
        Err(Error::TypeMismatch {
            expected: "float",
            found: "int",
            ..
        })
    ));
}

#[test]
fn a_released_cell_goes_stale_and_its_slot_is_reused_under_a_new_generation() {
    let mut cells = Cells::new();
    let first = cells.allocate(1_i64).expect("allocate");
    let id = first.id();
    let kept = cells.open::<i64>(id).expect("open");
    first.release(&mut cells).expect("release");

    assert!(matches!(kept.load(&cells), Err(Error::Stale(stale)) if stale == id));
    assert!(matches!(cells.open::<i64>(id), Err(Error::Stale(_))));
    assert!(!cells.is_live(id));

    let mut fresh = None;
    for _ in 0..CELL_CAPACITY {
        let cell = cells.allocate(2_i64).expect("allocate");
        if cell.id().index() == id.index() {
            fresh = Some(cell);
            break;
        }
    }
    let fresh = fresh.expect("the released slot is reused within one lap");
    assert_ne!(fresh.id().generation(), id.generation());
    assert!(
        matches!(kept.load(&cells), Err(Error::Stale(_))),
        "the old handle still does not reach the new occupant"
    );
    assert_eq!(fresh.load(&cells).expect("load"), 2);
}

#[test]
fn a_full_table_says_so() {
    let mut cells = Cells::new();
    let held: Vec<_> = (0..CELL_CAPACITY)
        .map(|_| cells.allocate(0_i64).expect("allocate"))
        .collect();
    assert!(matches!(cells.allocate(0_i64), Err(Error::Full { .. })));
    held.into_iter()
        .next()
        .expect("one")
        .release(&mut cells)
        .expect("release");
    assert!(cells.allocate(0_i64).is_ok());
}

#[test]
fn ids_round_trip_through_text_and_bits() {
    let mut cells = Cells::new();
    let cell = cells.allocate(3_i64).expect("allocate");
    let id = cell.id();
    let text = id.to_string();
    assert!(text.starts_with("cell:"));
    assert_eq!(CellId::from_str(&text).expect("parse"), id);
    assert_eq!(CellId::from_bits(id.to_bits()), id);
    assert!(matches!(
        CellId::from_str("cell:x"),
        Err(Error::Malformed(_))
    ));
    assert_eq!(
        cells
            .open::<i64>(CellId::from_str(&text).expect("parse"))
            .expect("open")
            .load(&cells)
            .expect("load"),
        3
    );
}

#[test]
fn ids_are_read_like_numbers() {
    let id = CellId {
        index: 4_294_967_295,
        generation: 12,
    };
    assert_eq!(id.to_string(), "cell:4294967295:12");
    assert_eq!(CellId::from_str("cell:4294967295:12"), Ok(id));
    assert_eq!(CellId::from_str("cell:+4294967295:0012"), Ok(id));
    assert_eq!(id.to_bits(), 0xFFFF_FFFF_0000_000C);
    for text in [
        "",
        "cell:",
        "cell:1",
        "cell:1:",
        "cell::1",
        "cell:4294967296:1",
        "cell:1:2:3",
        "cell:-1:2",
        "cell:+:2",
        "text:1:2",
        "Cell:1:2",
        " cell:1:2",
    ] {
        assert_eq!(
            CellId::from_str(text),
            Err(Error::Malformed(text.to_owned())),
            "{text}"
        );
    }
    let text = TextId {
        index: 1,
        generation: 2,
    };
    assert_eq!(text.to_string(), "text:1:2");
    assert_eq!(TextId::from_str("text:1:2"), Ok(text));
    assert_eq!(TextId::from_bits(text.to_bits()), text);
    assert_eq!((text.index(), text.generation()), (1, 2));
}

#[test]
fn text_cells_append_atomically_and_refuse_what_does_not_fit() {
    let mut cells = Cells::new();
    let text = cells.allocate_text("ab").expect("allocate");
    let same = cells.open_text(text.id()).expect("open");
    assert_eq!(same.append(&mut cells, "cd").expect("append"), 4);
    assert_eq!(text.load(&cells).expect("load"), "abcd");
    text.store(&mut cells, "x").expect("store");
    assert_eq!(same.load(&cells).expect("load"), "x");

    let big = "y".repeat(CELL_TEXT_MAX);
    assert!(matches!(
        same.append(&mut cells, &big),
        Err(Error::TooLong { .. })
    ));
    assert_eq!(
        text.load(&cells).expect("load"),
        "x",
        "a refused append writes nothing"
    );
    assert!(cells.allocate_text(&format!("{big}z")).is_err());

    let id = text.id();
    assert!(id.to_string().starts_with("text:"));
    text.release(&mut cells).expect("release");
    assert!(matches!(same.load(&cells), Err(Error::StaleText(stale)) if stale == id));
}

#[test]
fn text_cells_have_lengths_and_limits() {
    let mut cells = Cells::new();
    let text = cells.allocate_text("").expect("allocate");
    assert_eq!(text.is_empty(&cells), Ok(true));
    assert_eq!(text.append(&mut cells, "h\u{e9}"), Ok(3));
    assert_eq!(text.len(&cells), Ok(3));
    assert_eq!(text.is_empty(&cells), Ok(false));
    assert_eq!(text.load(&cells), Ok("h\u{e9}".to_owned()));
    let long = "z".repeat(CELL_TEXT_MAX + 1);
    assert_eq!(
        text.store(&mut cells, &long),
        Err(Error::TooLong {
            len: CELL_TEXT_MAX + 1,
            max: CELL_TEXT_MAX
        })
    );
    for _ in 1..CELL_TEXT_CAPACITY {
        cells.allocate_text("t").expect("allocate");
    }
    assert_eq!(
        cells.allocate_text("t"),
        Err(Error::Full {
            capacity: CELL_TEXT_CAPACITY
        })
    );
    assert!(cells.is_text_live(text.id()));
    assert_eq!(cells.release_text(text.id()), Ok(()));
    assert_eq!(
        cells.release_text(text.id()),
        Err(Error::StaleText(text.id()))
    );
    let again = cells.allocate_text("new").expect("released slot");
    assert_eq!(again.id().index(), text.id().index());
    assert_eq!(
        text.append(&mut cells, "old"),
        Err(Error::StaleText(text.id()))
    );
    cells.reset_all();
    assert!(!cells.is_text_live(again.id()));
}

#[test]
fn only_whole_copies_are_read() {
    assert!(copy_is_whole(4, 4));
    assert!(!copy_is_whole(5, 5));
    assert!(!copy_is_whole(4, 6));
    let id = TextId {
        index: 3,
        generation: 9,
    };
    assert_eq!(
        copied_text(id, b"plain".to_vec()),
        Ok("plain".to_owned())
    );
    assert_eq!(
        copied_text(id, vec![0xFF, 0xFE]),
        Err(Error::Corrupt("text:3:9".to_owned()))
    );
}

#[test]
fn callers_divide_a_limit_without_ever_passing_it() {
    const LIMIT: i64 = 200;
    let mut cells = Cells::new();
    let counter = cells.allocate(0_i64).expect("allocate");
    let chunks = [1_i64, 3, 7, 16];
    let mut total = 0;
    let mut turn = 0;
    while let Ok(Claim::Took { taken, after }) =
        counter.add_until(&mut cells, chunks[turn % 4], LIMIT)
    {
        assert!(after <= LIMIT);
        assert!(taken > 0 && taken <= chunks[turn % 4]);
        total += taken;
        turn += 1;
    }
    assert_eq!(total, LIMIT);
    assert_eq!(counter.load(&cells).expect("load"), LIMIT);
    assert_eq!(
        counter.add_until(&mut cells, 1, LIMIT).expect("claim"),
        Claim::Exhausted
    );
    assert_eq!(
        counter.add_until(&mut cells, 0, LIMIT),
        Err(Error::Overflow)
    );
}

#[test]
fn a_claim_spans_the_whole_range() {
    let mut cells = Cells::new();
    let counter = cells.allocate(i64::MIN).expect("allocate");
    assert_eq!(
        counter.add_until(&mut cells, i64::MAX, i64::MAX),
        Ok(Claim::Took {
            taken: i64::MAX,
            after: -1
        })
    );
    assert_eq!(
        counter.add_until(&mut cells, i64::MAX, i64::MAX),
        Ok(Claim::Took {
            taken: i64::MAX,
            after: i64::MAX - 1
        })
    );
    assert_eq!(
        counter.add_until(&mut cells, i64::MAX, i64::MAX),
        Ok(Claim::Took {
            taken: 1,
            after: i64::MAX
        })
    );
}

#[test]
fn signed_cells_keep_their_range() {
    let mut cells = Cells::new();
    let cell = cells.allocate(i64::MAX).expect("allocate");
    assert_eq!(cell.fetch_add(&mut cells, 1), Err(Error::Overflow));
    assert_eq!(cell.fetch_sub(&mut cells, i64::MIN), Err(Error::Overflow));
    assert_eq!(cell.fetch_add(&mut cells, -i64::MAX), Ok(0));
    assert_eq!(cell.fetch_sub(&mut cells, 5), Ok(-5));
    assert_eq!(cell.load(&cells), Ok(-5));
    let unsigned = cells.allocate(0_u64).expect("allocate");
    assert_eq!(unsigned.fetch_sub(&mut cells, 1), Err(Error::Overflow));
}

#[test]
fn taking_away_overflows_only_outside_the_range() {
    let mut cells = Cells::new();
    let cell = cells.allocate(-1_i64).expect("allocate");
    assert_eq!(cell.fetch_sub(&mut cells, i64::MIN), Ok(i64::MAX));
    assert_eq!(cell.load(&cells), Ok(i64::MAX));
    let stale = cells.open::<i64>(cell.id()).expect("open");
    cell.release(&mut cells).expect("release");
    assert_eq!(
        stale.fetch_sub(&mut cells, i64::MIN),
        Err(Error::Stale(stale.id()))
    );
}

#[test]
fn waiters_see_every_write() {
    let mut cells = Cells::new();
    let cell = cells.allocate(0_i64).expect("allocate");
    let since = cell.version(&cells).expect("version");
    assert_eq!(cell.wait_step(&cells, since, false), Ok(WaitStep::Park));
    for _ in 0..10 {
        cell.fetch_add(&mut cells, 1).expect("add");
    }
    assert_eq!(
        cell.wait_step(&cells, since, false),
        Ok(WaitStep::Changed(since + 10))
    );
    assert_eq!(
        cell.wait_step(&cells, since, true),
        Ok(WaitStep::Interrupted)
    );
    let watcher = cells.open::<i64>(cell.id()).expect("open");
    cell.release(&mut cells).expect("release");
    assert_eq!(
        watcher.wait_step(&cells, since, false),
        Err(Error::Stale(watcher.id()))
    );
    assert_eq!(
        watcher.store(&mut cells, 1),
        Err(Error::Stale(watcher.id()))
    );
}

#[test]
fn cell_tables_say_how_they_are_laid_out() {
    assert_eq!(cell_header().segment_size(), 64 + 4_096 * 64);
    assert_eq!(text_header().segment_size(), 64 + 1_024 * 256);
    assert!(cell_header().check(&text_header()).is_err());
}

#[test]
fn cell_errors_are_told_in_words() {
    let id = CellId {
        index: 1,
        generation: 2,
    };
    assert_eq!(Error::Stale(id).to_string(), "cell cell:1:2 has been released");
    assert_eq!(
        Error::TypeMismatch {
            id,
            expected: "float",
            found: "int"
        }
        .to_string(),
        "cell cell:1:2 holds int, not float"
    );
    assert_eq!(
        Error::Malformed("a\"b\n".to_owned()).to_string(),
        "not a cell id: \"a\\\"b\\n\""
    );
    assert_eq!(
        Error::Corrupt("text:1:2".to_owned()).to_string(),
        "text cell text:1:2 holds bytes that are not UTF-8"
    );
    assert_eq!(
        Error::Full { capacity: 4_096 }.to_string(),
        "cell table is full: capacity=4096"
    );
    assert_eq!(
        Error::TooLong { len: 241, max: 240 }.to_string(),
        "text does not fit the cell: len=241 max=240"
    );
    assert_eq!(
        Error::StaleText(TextId {
            index: 0,
            generation: 1
        })
        .to_string(),
        "text cell text:0:1 has been released"
    );
    assert_eq!(
        Error::Overflow.to_string(),
        "cell value is outside the integer range"
    );
}
