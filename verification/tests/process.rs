use procmod_core::Protection;

#[test]
fn protection_display() {
    let rwx = Protection {
        read: true,
        write: true,
        execute: true,
    };
    assert_eq!(rwx.to_string(), "rwx");

    let r_only = Protection {
        read: true,
        write: false,
        execute: false,
    };
    assert_eq!(r_only.to_string(), "r--");

    let none = Protection {
        read: false,
        write: false,
        execute: false,
    };
    assert_eq!(none.to_string(), "---");
}
