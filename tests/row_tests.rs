use jigsaw_core::bell::Bell;
use jigsaw_core::row::{IncompatibleStages, InvalidRowError, Row};
use jigsaw_core::stage::Stage;

fn row(s: &str) -> Row {
    Row::parse(s).unwrap()
}

#[test]
fn rounds_backrounds_queens() {
    assert_eq!(Row::rounds(Stage::new(4)).to_string(), "1234");
    assert_eq!(Row::rounds(Stage::new(9)).to_string(), "123456789");
    assert_eq!(Row::backrounds(Stage::new(4)).to_string(), "4321");
    assert_eq!(Row::backrounds(Stage::new(9)).to_string(), "987654321");
    assert_eq!(Row::queens(Stage::new(4)).to_string(), "1324");
    assert_eq!(Row::queens(Stage::new(9)).to_string(), "135792468");
    assert_eq!(Row::rounds(Stage::new(8)).stage(), Stage::new(8));
}

#[test]
fn parse_skips_other_characters() {
    assert_eq!(row("12543").to_string(), "12543");
    assert_eq!(row("4321\t[65 78]").to_string(), "43216578");
    assert_eq!(row("3|2|1  6|5|4  9|8|7").to_string(), "321654987");
    assert_eq!(row("13579 | 24680").to_string(), "1357924680");
    assert_eq!(row("321 654 987 0").stage(), Stage::new(10));
}

#[test]
fn parse_duplicate_bell() {
    assert_eq!(
        Row::parse("112345"),
        Err(InvalidRowError::DuplicateBell(Bell::from_name('1').unwrap()))
    );
    assert_eq!(
        Row::parse("4152357"),
        Err(InvalidRowError::DuplicateBell(Bell::from_name('5').unwrap()))
    );
}

#[test]
fn parse_bell_out_of_stage() {
    assert_eq!(
        Row::parse("12745"),
        Err(InvalidRowError::BellOutOfStage(
            Bell::from_number(7).unwrap(),
            Stage::new(5)
        ))
    );
    assert_eq!(
        Row::parse("5432"),
        Err(InvalidRowError::BellOutOfStage(
            Bell::from_name('5').unwrap(),
            Stage::new(4)
        ))
    );
}

#[test]
fn from_vec_checks_validity() {
    let bells: Vec<Bell> = [3, 1, 0, 2].iter().map(|&i| Bell::from_index(i)).collect();
    assert_eq!(Row::from_vec(bells).unwrap().to_string(), "4213");
    let bad: Vec<Bell> = [3, 1, 0, 3].iter().map(|&i| Bell::from_index(i)).collect();
    assert_eq!(
        Row::from_vec(bad),
        Err(InvalidRowError::DuplicateBell(Bell::from_name('4').unwrap()))
    );
    let out: Vec<Bell> = [0, 3, 7, 2, 1].iter().map(|&i| Bell::from_index(i)).collect();
    assert_eq!(
        Row::from_iter_checked(&out),
        Err(InvalidRowError::BellOutOfStage(
            Bell::from_name('8').unwrap(),
            Stage::new(5)
        ))
    );
    let ok: Vec<Bell> = [0, 3, 4, 2, 1].iter().map(|&i| Bell::from_index(i)).collect();
    assert_eq!(Row::from_iter_checked(&ok).unwrap().to_string(), "14532");
}

#[test]
fn from_vec_unchecked_keeps_invalid_bells() {
    let bad: Vec<Bell> = [3, 1, 0, 3].iter().map(|&i| Bell::from_index(i)).collect();
    assert_eq!(Row::from_vec_unchecked(bad).to_string(), "4214");
}

#[test]
fn multiplication() {
    assert_eq!(
        row("13425678").mul(&row("43217568")),
        Ok(row("24317568"))
    );
    assert_eq!(
        row("13425678").mul_unchecked(&row("43217568")),
        row("24317568")
    );
}

#[test]
fn multiplication_incompatible_stages() {
    assert_eq!(
        row("13425678").mul(&row("4321")),
        Err(IncompatibleStages {
            lhs_stage: Stage::new(8),
            rhs_stage: Stage::new(4),
        })
    );
    assert_eq!(
        row("4321").mul(&row("13425678")),
        Err(IncompatibleStages {
            lhs_stage: Stage::new(4),
            rhs_stage: Stage::new(8),
        })
    );
    assert_eq!(
        IncompatibleStages::test_err(Stage::new(6), Stage::new(6)),
        Ok(())
    );
}

#[test]
fn inverses() {
    assert_eq!(row("135246").inverse(), row("142536"));
    assert_eq!(
        Row::backrounds(Stage::new(8)).inverse(),
        Row::backrounds(Stage::new(8))
    );
    assert_eq!(row("1342").inverse(), row("1423"));
    let a = row("15738264");
    assert!(a.mul(&a.inverse()).unwrap().is_rounds());
    assert!(a.inverse().mul(&a).unwrap().is_rounds());
}

#[test]
fn associativity_on_examples() {
    let a = row("15738264");
    let b = row("87654321");
    let c = row("13572468");
    let left = a.mul(&b).unwrap().mul(&c).unwrap();
    let right = a.mul(&b.mul(&c).unwrap()).unwrap();
    assert_eq!(left, right);
}

#[test]
fn closure_of_cyclic_part_head() {
    let c = row("18234567").closure();
    assert_eq!(c.len(), 7);
    let expected = [
        "18234567", "17823456", "16782345", "15678234", "14567823", "13456782", "12345678",
    ];
    for (r, e) in c.iter().zip(expected.iter()) {
        assert_eq!(r.to_string(), *e);
    }
    assert_eq!(c[6], row("12345678"));
}

#[test]
fn closure_ends_with_rounds_and_divides_factorial() {
    for s in ["1", "21", "2314", "21453", "654321", "2134675"] {
        let r = row(s);
        let c = r.closure();
        assert!(!c.is_empty());
        assert!(c.last().unwrap().is_rounds());
        let n = r.len();
        let fact: usize = (1..=n).product();
        assert_eq!(fact % c.len(), 0);
    }
    assert_eq!(row("2314").closure().len(), 3);
    assert_eq!(row("21453").closure().len(), 6);
}

#[test]
fn is_rounds() {
    assert!(Row::rounds(Stage::new(12)).is_rounds());
    assert!(!row("18423756").is_rounds());
}

#[test]
fn display_round_trip() {
    for s in ["1", "2143", "1357924680", "0987654321ET", "ZYWVUSRQPNMLKJHGFDCBATE0987654321"] {
        let r = row(s);
        assert_eq!(r.to_string(), s);
        assert_eq!(row(&r.to_string()), r);
    }
}

#[test]
fn push_to_string_appends() {
    let mut s = "Waterfall is: ".to_string();
    row("6543217890").push_to_string(&mut s);
    assert_eq!(s, "Waterfall is: 6543217890");
}

#[test]
fn bell_names() {
    assert_eq!(Bell::from_index(0).name(), "1");
    assert_eq!(Bell::from_index(9).name(), "0");
    assert_eq!(Bell::from_index(11).name(), "T");
    assert_eq!(Bell::from_number(16).unwrap().name(), "D");
    assert_eq!(Bell::from_number(100).unwrap().name(), "<100>");
    assert_eq!(Bell::from_number(0), None);
    assert_eq!(Bell::from_name('t'), None);
    assert_eq!(Bell::from_name('E'), Some(Bell::from_index(10)));
    assert_eq!(Bell::from_index(10).to_char(), Some('E'));
    let wide: Vec<Bell> = (0..40).map(Bell::from_index).collect();
    let r = Row::from_vec(wide).unwrap();
    assert!(r.to_string().ends_with("<40>"));
}

#[test]
fn fast_hash_mixed_radix() {
    assert_eq!(row("1234").fast_hash(), 0 + 1 * 4 + 2 * 16 + 3 * 64);
    assert_eq!(row("4321").fast_hash(), 3 + 2 * 4 + 1 * 16);
    assert_ne!(row("1243").fast_hash(), row("2134").fast_hash());
}

#[test]
fn slice_and_get() {
    let r = row("15263748");
    assert_eq!(r.slice()[3], Bell::from_name('6').unwrap());
    assert_eq!(r.get(3), Bell::from_name('6').unwrap());
    assert_eq!(r.bells().len(), 8);
    assert_eq!(r.copied(), r);
}
