use brainfuck::io_policy::{input_retained, output_permitted};

#[test]
fn plain_sink_takes_every_byte() {
    assert!(output_permitted(false, 0));
    assert!(output_permitted(false, 127));
    assert!(output_permitted(false, 128));
    assert!(output_permitted(false, 255));
}

#[test]
fn text_only_sink_drops_high_bytes() {
    assert!(output_permitted(true, 0));
    assert!(output_permitted(true, 127));
    assert!(!output_permitted(true, 128));
    assert!(!output_permitted(true, 255));
}

#[test]
fn plain_input_keeps_carriage_returns() {
    assert!(input_retained(false, 13));
    assert!(input_retained(false, 10));
}

#[test]
fn crlf_input_discards_carriage_returns_only() {
    assert!(!input_retained(true, 13));
    assert!(input_retained(true, 10));
    assert!(input_retained(true, 0));
    assert!(input_retained(true, b'A'));
}
