//! Names of varnodes.

use strider_ir::dot::naming::{vn_to_display_name, Naming, RegisterName};
use strider_ir::target::{Vn, VnSpace};

/// A target with one named register.
fn probe_naming() -> Naming {
    Naming {
        default_code_space: VnSpace::ram(),
        registers: vec![RegisterName {
            vn: Vn {
                addr_off: 0,
                addr_space: VnSpace::register(),
                size: 8,
            },
            name: "RAX".to_string(),
        }],
        floats: Vec::new(),
    }
}

#[test]
fn const_formats_as_hex_offset_colon_size() {
    let naming = probe_naming();
    let vn = Vn {
        addr_off: 0x2a,
        addr_space: VnSpace::constant(),
        size: 4,
    };
    let name = vn_to_display_name(&naming, &vn);
    assert_eq!(name, "0x2a:4");
}

#[test]
fn ram_formats_as_ram_offset_size() {
    let naming = probe_naming();
    let vn = Vn {
        addr_off: 0x1000,
        addr_space: VnSpace::ram(),
        size: 8,
    };
    let name = vn_to_display_name(&naming, &vn);
    assert_eq!(name, "ram[0x1000]:8");
}

#[test]
fn unique_formats_as_unique_offset_size() {
    let naming = probe_naming();
    let vn = Vn {
        addr_off: 0x80,
        addr_space: VnSpace::unique(),
        size: 1,
    };
    let name = vn_to_display_name(&naming, &vn);
    assert_eq!(name, "unique[0x80]:1");
}

#[test]
fn register_known_offset_returns_register_name() {
    let naming = probe_naming();
    let (name, vn) = ("RAX", naming.registers[0].vn);
    let resolved = vn_to_display_name(&naming, &vn);
    assert_eq!(resolved, name);
}

#[test]
fn register_unknown_offset_falls_back_to_space_addr_size() {
    let naming = probe_naming();
    // A REGISTER-space offset the register table won't map.
    let bogus = Vn {
        addr_off: 0xffff_ffff_ffff_ffff,
        addr_space: VnSpace::register(),
        size: 1,
    };
    let resolved = vn_to_display_name(&naming, &bogus);
    assert_eq!(resolved, "register[0xffffffffffffffff]:1");
}

#[test]
fn unknown_space_byte_falls_back_to_shortcut_char() {
    let naming = probe_naming();
    // A shortcut that is none of CONST/REGISTER/RAM/UNIQUE.
    let exotic = Vn {
        addr_off: 0,
        addr_space: VnSpace::new(b'?'),
        size: 1,
    };
    let resolved = vn_to_display_name(&naming, &exotic);
    assert_eq!(resolved, "?[0x0]:1");
}

#[test]
fn label_const_formats_as_hex_offset_colon_size() {
    let naming = probe_naming();
    let vn = Vn { addr_off: 0x2a, addr_space: VnSpace::constant(), size: 4 };
    let name = vn_to_display_name(&naming, &vn);
    assert_eq!(name, "0x2a:4");
}

#[test]
fn label_ram_formats_as_ram_offset_size() {
    let naming = probe_naming();
    let vn = Vn { addr_off: 0x1000, addr_space: VnSpace::ram(), size: 8 };
    let name = vn_to_display_name(&naming, &vn);
    assert_eq!(name, "ram[0x1000]:8");
}

#[test]
fn label_unique_formats_as_unique_offset_size() {
    let naming = probe_naming();
    let vn = Vn { addr_off: 0x80, addr_space: VnSpace::unique(), size: 1 };
    let name = vn_to_display_name(&naming, &vn);
    assert_eq!(name, "unique[0x80]:1");
}

#[test]
fn label_register_known_offset_returns_register_name() {
    let naming = probe_naming();
    let (name, vn) = ("RAX", naming.registers[0].vn);
    let resolved = vn_to_display_name(&naming, &vn);
    assert_eq!(resolved, name);
}

#[test]
fn label_register_unknown_offset_falls_back_to_space_addr_size() {
    let naming = probe_naming();
    // A REGISTER-space offset the register table won't map.
    let bogus = Vn {
        addr_off: 0xffff_ffff_ffff_ffff,
        addr_space: VnSpace::register(),
        size: 1,
    };
    let resolved = vn_to_display_name(&naming, &bogus);
    assert_eq!(resolved, "register[0xffffffffffffffff]:1");
}

#[test]
fn label_unknown_space_byte_falls_back_to_shortcut_char() {
    let naming = probe_naming();
    // A space shortcut that is neither CONST (#), REGISTER (%),
    // RAM (r), nor UNIQUE (u).  It is shown as the raw shortcut
    // char.
    let exotic = Vn {
        addr_off: 0,
        addr_space: VnSpace::new(b'?'),
        size: 1,
    };
    let resolved = vn_to_display_name(&naming, &exotic);
    assert_eq!(resolved, "?[0x0]:1");
}
