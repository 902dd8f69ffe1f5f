use bifrost::chain::{Chain, LogletParams, ProviderKind};
use bifrost::offsets::{lsn_from_offset, offset_from_lsn};

fn params() -> LogletParams {
    LogletParams::new(String::new())
}

#[test]
fn lsn_and_offset_spaces_line_up() {
    // A loglet based at LSN 100 serves offset 1 at LSN 100.
    assert_eq!(lsn_from_offset(100, 1), 100);
    assert_eq!(lsn_from_offset(100, 5), 104);
    assert_eq!(offset_from_lsn(100, 104), 5);
    assert_eq!(offset_from_lsn(1, 1), 1);
}

#[test]
fn find_segment_for_lsn_walks_the_chain() {
    let mut chain = Chain::new(1, ProviderKind::Local, params());
    chain.append_segment(1, 50, ProviderKind::Local, params());
    chain.append_segment(2, 120, ProviderKind::Replicated, params());

    assert_eq!(chain.find_segment_for_lsn(1), 0);
    assert_eq!(chain.find_segment_for_lsn(49), 0);
    assert_eq!(chain.find_segment_for_lsn(50), 1);
    assert_eq!(chain.find_segment_for_lsn(119), 1);
    assert_eq!(chain.find_segment_for_lsn(120), 2);
    assert_eq!(chain.find_segment_for_lsn(u64::MAX - u64::from(u32::MAX)), 2);
    assert_eq!(chain.tail_index(), 2);
}

#[test]
fn lsns_below_the_first_base_belong_to_the_first_segment() {
    let mut chain = Chain::new(10, ProviderKind::Local, params());
    chain.append_segment(1, 20, ProviderKind::Local, params());
    assert_eq!(chain.find_segment_for_lsn(3), 0);
}
