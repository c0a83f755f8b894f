//! Console value types and the platform helpers.
use kernel_alloc::vga::{Char, Color, ColorCode};
use kernel_alloc::{to_virt, QemuExitCode, VIRTUAL_OFFSET};

#[test]
fn color_codes_follow_hardware_order() {
    assert_eq!(Color::Black.code(), 0);
    assert_eq!(Color::Cyan.code(), 3);
    assert_eq!(Color::Yellow.code(), 14);
    assert_eq!(Color::White.code(), 15);
}

#[test]
fn color_code_packs_background_high() {
    let c = ColorCode::new(Color::Yellow, Color::Black);
    assert_eq!(c.0, 14);
    let c = ColorCode::new(Color::White, Color::Blue);
    assert_eq!(c.0, (1 << 4) | 15);
}

#[test]
fn screen_char_holds_its_fields() {
    let c = Char { ascii_character: b'x', color_code: ColorCode::new(Color::Green, Color::Black) };
    assert_eq!(c.ascii_character, b'x');
    assert_eq!(c.color_code.0, 2);
}

#[test]
fn qemu_exit_codes() {
    assert_eq!(QemuExitCode::Success.code(), 0x10);
    assert_eq!(QemuExitCode::Failed.code(), 0x11);
}

#[test]
fn virtual_mapping_covers_low_memory() {
    assert_eq!(to_virt(0), Some(VIRTUAL_OFFSET));
    assert_eq!(to_virt(0x1000), Some(0xC0001000));
    assert_eq!(to_virt(0xFFFF_FFFF), Some(0xFFFF_FFFF + VIRTUAL_OFFSET));
    assert_eq!(to_virt(0x1_0000_0000), None);
}
