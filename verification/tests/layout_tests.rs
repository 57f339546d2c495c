use cn_input_encode::layout::{LayoutError, LayoutMap};

fn qwerty() -> Vec<String> {
    [
        "1qaz", "2wsx", "3edc", "45rtfgvb", "67yuhjnm", "8ik,", "9ol.", "0p;/", " ",
        "1234567890", "qwertyuiop", "asdfghjkl;", "zxcvbnm,./", " ",
    ]
    .iter()
    .map(|s| s.to_string())
    .collect()
}

#[test]
fn layout_gives_finger_and_row() {
    let m = LayoutMap::new(&qwerty()).unwrap();
    assert_eq!(m.get('f'), (4, 3));
    assert_eq!(m.get('j'), (5, 3));
    assert_eq!(m.get('q'), (1, 2));
    assert_eq!(m.get('0'), (8, 1));
    assert_eq!(m.get('/'), (8, 4));
    assert_eq!(m.get(' '), (9, 5));
    assert_eq!(m.get('~'), (0, 0));
    assert_eq!(m.get('中'), (0, 0));
}

#[test]
fn layout_keys_with_only_a_row_or_a_finger() {
    let mut l = qwerty();
    l[0] = "1qazA".to_string();
    l[12] = "zxcvbnm,./B".to_string();
    let m = LayoutMap::new(&l).unwrap();
    assert_eq!(m.get('A'), (1, 0));
    assert_eq!(m.get('B'), (0, 4));
}

#[test]
fn layout_needs_fourteen_groups() {
    let mut l = qwerty();
    l.pop();
    assert_eq!(LayoutMap::new(&l).err(), Some(LayoutError::WrongCount));
    let mut l = qwerty();
    l.push(String::new());
    assert_eq!(LayoutMap::new(&l).err(), Some(LayoutError::WrongCount));
    assert_eq!(LayoutMap::new(&[]).err(), Some(LayoutError::WrongCount));
}

#[test]
fn layout_refuses_key_of_two_fingers() {
    let mut l = qwerty();
    l[1] = "2wsxq".to_string();
    assert_eq!(LayoutMap::new(&l).err(), Some(LayoutError::FingerConflict('q')));
    let mut l = qwerty();
    l[3] = "45rtfgvbb".to_string();
    assert_eq!(LayoutMap::new(&l).err(), Some(LayoutError::FingerConflict('b')));
}

#[test]
fn layout_refuses_key_of_two_rows() {
    let mut l = qwerty();
    l[11] = "asdfghjkl;q".to_string();
    assert_eq!(LayoutMap::new(&l).err(), Some(LayoutError::RowConflict('q')));
}

#[test]
fn layout_reports_first_conflict() {
    let mut l = qwerty();
    l[1] = "2wsxzq".to_string();
    l[11] = "asdfghjkl;q".to_string();
    // the finger groups are checked first, in order
    assert_eq!(LayoutMap::new(&l).err(), Some(LayoutError::FingerConflict('z')));
}
