use cn_input_encode::layout::LayoutMap;
use cn_input_encode::usage::{UsageCounter, UsageStats};

fn qwerty() -> LayoutMap {
    let l: Vec<String> = [
        "1qaz", "2wsx", "3edc", "45rtfgvb", "67yuhjnm", "8ik,", "9ol.", "0p;/", " ",
        "1234567890", "qwertyuiop", "asdfghjkl;", "zxcvbnm,./", " ",
    ]
    .iter()
    .map(|s| s.to_string())
    .collect();
    LayoutMap::new(&l).unwrap()
}

fn count(layout: &LayoutMap, pieces: &[&str]) -> UsageStats {
    let mut c = UsageCounter::new(layout);
    for p in pieces {
        c.feed(p);
    }
    c.finish()
}

#[test]
fn usage_counts_fingers_rows_runs_and_switches() {
    let layout = qwerty();
    let st = count(&layout, &["ffj"]);
    assert_eq!(st.keys, 3);
    assert_eq!(st.finger_cnt, vec![0, 0, 0, 2, 1, 0, 0, 0, 0]);
    assert_eq!(st.row_cnt, vec![0, 0, 3, 0, 0]);
    assert_eq!(st.repeat_cnt, vec![1, 0, 0, 0]);
    assert_eq!(st.leap_cnt, vec![0, 0, 0]);
    assert_eq!(st.switch_cnt, 1);
    assert_eq!(st.left_sum, 2);
    assert_eq!(st.right_sum, 1);
}

#[test]
fn usage_counts_leaps_by_rows_crossed() {
    let layout = qwerty();
    // f-r: one row; r-v: two rows; v-4: three rows
    let st = count(&layout, &["frv4"]);
    assert_eq!(st.leap_cnt, vec![1, 1, 1]);
    assert_eq!(st.switch_cnt, 0);
    assert_eq!(st.finger_cnt[3], 4);
    assert_eq!(st.row_cnt, vec![1, 1, 1, 1, 0]);
}

#[test]
fn usage_run_buckets() {
    let layout = qwerty();
    let st = count(&layout, &["aab", "bbcccc", "ccddddd"]);
    // aa (2), bbb (3), cccccc (6, 5 or more), ddddd (5)
    assert_eq!(st.repeat_cnt, vec![1, 1, 0, 2]);
    assert_eq!(st.keys, 16);
}

#[test]
fn usage_thumbs_and_spaces_neither_leap_nor_switch() {
    let layout = qwerty();
    let st = count(&layout, &["f ", "j"]);
    assert_eq!(st.finger_cnt[8], 1);
    assert_eq!(st.row_cnt[4], 1);
    assert_eq!(st.switch_cnt, 0);
    assert_eq!(st.leap_cnt, vec![0, 0, 0]);
}

#[test]
fn usage_unknown_keys_are_counted_as_keys_only() {
    let layout = qwerty();
    let st = count(&layout, &["中中"]);
    assert_eq!(st.keys, 2);
    assert_eq!(st.finger_cnt, vec![0; 9]);
    assert_eq!(st.row_cnt, vec![0; 5]);
    assert_eq!(st.repeat_cnt, vec![1, 0, 0, 0]);
}

#[test]
fn usage_does_not_depend_on_how_the_text_is_cut() {
    let layout = qwerty();
    let whole = count(&layout, &["ffjjjkd frv4  aa"]);
    let cut = count(&layout, &["ff", "jj", "", "jkd f", "rv4 ", " a", "a"]);
    assert_eq!(whole.keys, cut.keys);
    assert_eq!(whole.finger_cnt, cut.finger_cnt);
    assert_eq!(whole.row_cnt, cut.row_cnt);
    assert_eq!(whole.repeat_cnt, cut.repeat_cnt);
    assert_eq!(whole.leap_cnt, cut.leap_cnt);
    assert_eq!(whole.switch_cnt, cut.switch_cnt);
}

#[test]
fn usage_of_nothing() {
    let layout = qwerty();
    let st = count(&layout, &[]);
    assert_eq!(st.keys, 0);
    assert_eq!(st.repeat_cnt, vec![0, 0, 0, 0]);
    assert_eq!(st.left_sum + st.right_sum, 0);
}
