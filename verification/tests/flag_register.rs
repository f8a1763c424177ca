use the_wash::html::HtmlFlags;

#[test]
fn new_register_has_no_flag_set() {
    let flags = HtmlFlags::new();
    for bit in 0..8 {
        assert!(!flags.get_bit(bit));
    }
    assert!(!flags.get_open_tag());
    assert!(!flags.get_name_issued());
    assert!(!flags.get_end_tag());
    assert!(!flags.get_inside_quote());
}

#[test]
fn set_bit_changes_that_bit_only() {
    for bit in 0..8 {
        let mut flags = HtmlFlags::new();
        flags.set_bit(bit, true);
        for other in 0..8 {
            assert_eq!(flags.get_bit(other), other == bit);
        }
        flags.set_bit(bit, true);
        assert!(flags.get_bit(bit));
        flags.set_bit(bit, false);
        for other in 0..8 {
            assert!(!flags.get_bit(other));
        }
    }
}

#[test]
fn clearing_a_bit_keeps_the_others() {
    for bit in 0..8 {
        let mut flags = HtmlFlags::new();
        for other in 0..8 {
            flags.set_bit(other, true);
        }
        flags.set_bit(bit, false);
        for other in 0..8 {
            assert_eq!(flags.get_bit(other), other != bit);
        }
    }
}

#[test]
fn named_flags_sit_on_their_bits() {
    let mut flags = HtmlFlags::new();
    flags.set_open_tag(true);
    assert!(flags.get_open_tag() && flags.get_bit(0));
    assert!(!flags.get_name_issued() && !flags.get_end_tag() && !flags.get_inside_quote());

    flags.set_name_issued(true);
    assert!(flags.get_name_issued() && flags.get_bit(1));

    flags.set_end_tag(true);
    assert!(flags.get_end_tag() && flags.get_bit(2));

    flags.set_inside_quote(true);
    assert!(flags.get_inside_quote() && flags.get_bit(7));

    for bit in 3..7 {
        assert!(!flags.get_bit(bit));
    }

    flags.set_open_tag(false);
    assert!(!flags.get_open_tag());
    assert!(flags.get_name_issued() && flags.get_end_tag() && flags.get_inside_quote());

    flags.set_name_issued(false);
    flags.set_end_tag(false);
    flags.set_inside_quote(false);
    for bit in 0..8 {
        assert!(!flags.get_bit(bit));
    }
}

#[test]
fn reset_clears_every_flag() {
    let mut flags = HtmlFlags::new();
    for bit in 0..8 {
        flags.set_bit(bit, true);
    }
    flags.reset();
    for bit in 0..8 {
        assert!(!flags.get_bit(bit));
    }
    flags.reset();
    assert!(!flags.get_open_tag());
}
