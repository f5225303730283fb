use rhythms::Pattern;

#[test]
fn bjorklund_example() {
    let pattern = Pattern::new(13, 5, -3);
    assert_eq!(
        [true, false, false, true, false, true, false, false, true, false, true, false, false],
        pattern.as_slice()
    );
}

#[test]
fn ruchenitza() {
    let pattern = Pattern::new(7, 3, -3);
    assert_eq!(
        [true, false, true, false, true, false, false],
        pattern.as_slice()
    );
}

#[test]
fn york_samai() {
    let pattern = Pattern::new(6, 5, 1);
    assert_eq!(
        [true, false, true, true, true, true],
        pattern.as_slice()
    );
}

#[test]
fn cumbia() {
    let pattern = Pattern::new(4, 3, 1);
    assert_eq!(
        [true, false, true, true],
        pattern.as_slice()
    );
}

#[test]
fn khafif_e_ramal() {
    let pattern = Pattern::new(5, 2, -3);
    assert_eq!(
        [true, false, true, false, false],
        pattern.as_slice()
    );
}

#[test]
fn agsag_samai() {
    let pattern = Pattern::new(9, 5, 1);
    assert_eq!(
        [true, false, true, false, true, false, true, false, true],
        pattern.as_slice()
    );
}

#[test]
fn venda() {
    let pattern = Pattern::new(12, 5, 0);
    assert_eq!(
        [true, false, false, true, false, true, false, false, true, false, true, false],
        pattern.as_slice()
    );
}

#[test]
fn bendir() {
    let pattern = Pattern::new(8, 7, 1);
    assert_eq!(
        [true, false, true, true, true, true, true, true],
        pattern.as_slice()
    );
}

#[test]
fn overflow() {
    let pattern = Pattern::new(8, 9, 0);
    assert_eq!(
        [true, true, true, true, true, true, true, true],
        pattern.as_slice()
    );
}

#[test]
fn zero_length() {
    let pattern = Pattern::with_length(0);
    assert_eq!(0, pattern.len());
}

#[test]
fn zero_pulses() {
    let mut pattern = Pattern::with_length(2);
    pattern.pulses(0);
    assert_eq!([false, false], pattern.as_slice());
}
