use openquanter::ledger::sink::{EventSink, MemorySink};

#[test]
fn memory_sink_numbers_from_zero() {
    let mut sink = MemorySink::new();
    assert_eq!(sink.append(1, b"a").expect("append"), 0);
    assert_eq!(sink.append(1, b"b").expect("append"), 1);
    assert_eq!(sink.len(), 2);
    assert_eq!(sink.records()[1].1, b"b");
}
