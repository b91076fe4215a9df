use ferros_core::interrupts::{InterruptIndex, PIC_1_OFFSET, PIC_2_OFFSET};
use ferros_core::keyboard::{add_scancode, ScancodeStream, SCANCODE_QUEUE_CAPACITY};

#[test]
fn interrupt_vectors() {
    assert_eq!(PIC_1_OFFSET, 32);
    assert_eq!(PIC_2_OFFSET, 40);
    assert_eq!(InterruptIndex::Timer.as_u8(), 32);
    assert_eq!(InterruptIndex::Keyboard.as_u8(), 33);
    assert_eq!(InterruptIndex::Timer.as_usize(), 32);
    assert_eq!(InterruptIndex::Keyboard.as_usize(), 33);
}

#[test]
fn scancodes_come_back_in_arrival_order() {
    let mut stream = ScancodeStream::new();
    assert_eq!(stream.next_scancode(), None);
    add_scancode(&mut stream, 0x1e);
    add_scancode(&mut stream, 0x30);
    add_scancode(&mut stream, 0x2e);
    assert_eq!(stream.len(), 3);
    assert_eq!(stream.next_scancode(), Some(0x1e));
    assert_eq!(stream.next_scancode(), Some(0x30));
    assert_eq!(stream.next_scancode(), Some(0x2e));
    assert_eq!(stream.next_scancode(), None);
}

#[test]
fn full_queue_drops_new_scancodes() {
    let mut stream = ScancodeStream::new();
    for i in 0..SCANCODE_QUEUE_CAPACITY {
        add_scancode(&mut stream, (i % 200) as u8);
    }
    assert_eq!(stream.len(), SCANCODE_QUEUE_CAPACITY);
    add_scancode(&mut stream, 0xff);
    assert_eq!(stream.len(), SCANCODE_QUEUE_CAPACITY);
    // the oldest scancode is still first; the overflowing one is gone
    assert_eq!(stream.next_scancode(), Some(0));
    let mut last = 0u8;
    while let Some(code) = stream.next_scancode() {
        last = code;
    }
    assert_eq!(last, ((SCANCODE_QUEUE_CAPACITY - 1) % 200) as u8);
}
