use memsolve::chip::{Chip, ChipError, PageSize};
use memsolve::section::{Section, SectionError};

#[test]
fn name() {
    assert!(Section::new("test").is_ok());
    assert!(Section::new("test2").is_ok());
    assert!(Section::new("test space").is_err());
}

#[test]
fn merge() {
    let mut section = Section::new("t").unwrap().set_size(100);
    let second = Section::new("t").unwrap().set_pages(1);
    section.merge(&second);
    assert_eq!(section.pages(), Some(1));
    assert_eq!(section.size(), Some(100));
}

#[test]
fn page_vs_bytes() {
    let section = Section::new("t")
        .unwrap()
        .set_address(0)
        .set_size(10)
        .set_pages(2);
    let chip = Chip::new(10, 0, 20).unwrap();
    let (pages, size) = section.resolve_page_and_size(&chip).unwrap();
    assert_eq!(pages, 2);
    assert_eq!(size, 20);

    let chip = Chip::new(2, 0, 20).unwrap();
    let (pages, size) = section.resolve_page_and_size(&chip).unwrap();
    assert_eq!(pages, 5);
    assert_eq!(size, 10);

    let chip = Chip::new(5, 0, 20).unwrap();
    let (pages, size) = section.resolve_page_and_size(&chip).unwrap();
    assert_eq!(pages, 2);
    assert_eq!(size, 10);
}

#[test]
fn name_with_underscore_and_digits() {
    assert!(Section::new("BOOT_2").is_ok());
    assert_eq!(Section::new("a-b").unwrap_err(), SectionError::InvalidSectionName);
    assert_eq!(Section::new("ä").unwrap_err(), SectionError::InvalidSectionName);
    assert!(Section::new("").is_ok());
}

#[test]
fn new_section_has_no_requirements() {
    let s = Section::new("app").unwrap();
    assert_eq!(s.name(), "app");
    assert!(!s.boot());
    assert!(!s.maximize());
    assert_eq!(s.pages(), None);
    assert_eq!(s.size(), None);
    assert_eq!(s.address(), None);
    assert_eq!(s.address_align(), None);
    assert_eq!(s.relative_pages(), 0);
    assert_eq!(s.linker_name_override(), None);
}

#[test]
fn setters_and_clearers() {
    let s = Section::new("s")
        .unwrap()
        .set_boot(true)
        .set_maximize(true)
        .set_pages(3)
        .set_size(7)
        .set_address(0x100)
        .set_address_align(0x40)
        .set_relative_pages(-2);
    assert!(s.boot());
    assert!(s.maximize());
    assert_eq!(s.pages(), Some(3));
    assert_eq!(s.size(), Some(7));
    assert_eq!(s.address(), Some(0x100));
    assert_eq!(s.address_align(), Some(0x40));
    assert_eq!(s.relative_pages(), -2);
    let s = s
        .clear_pages()
        .clear_size()
        .clear_address()
        .clear_address_align()
        .clear_relative_pages();
    assert_eq!(s.pages(), None);
    assert_eq!(s.size(), None);
    assert_eq!(s.address(), None);
    assert_eq!(s.address_align(), None);
    assert_eq!(s.relative_pages(), 0);
    assert_eq!(s.clone().set_size_bytes(4096).size(), Some(4096));
}

#[test]
fn merge_takes_larger_bounds_and_keeps_set_values() {
    let mut a = Section::new("a")
        .unwrap()
        .set_pages(4)
        .set_size(10)
        .set_address(0x1000)
        .set_relative_pages(1);
    let b = Section::new("a")
        .unwrap()
        .set_boot(true)
        .set_pages(2)
        .set_size(30)
        .set_address(0x2000)
        .set_relative_pages(5)
        .set_linker_name("OTHER")
        .unwrap();
    a.merge(&b);
    assert!(a.boot());
    assert!(!a.maximize());
    assert_eq!(a.pages(), Some(4));
    assert_eq!(a.size(), Some(30));
    assert_eq!(a.address(), Some(0x1000));
    assert_eq!(a.relative_pages(), 5);
    assert_eq!(a.linker_name_override().map(|s| s.as_str()), Some("OTHER"));
}

#[test]
fn merge_with_itself_changes_nothing() {
    let a = Section::new("x")
        .unwrap()
        .set_maximize(true)
        .set_pages(2)
        .set_relative_pages(3);
    let mut b = a.clone();
    b.merge(&a);
    assert_eq!(a, b);
}

#[test]
fn flags_of_sections() {
    let fixed = Section::new("f").unwrap().set_address(4).set_pages(1);
    assert!(fixed.is_fixed());
    assert!(fixed.is_resolved());
    assert!(!fixed.needs_allocating());
    assert!(!fixed.needs_maximizing());
    let boot = Section::new("b").unwrap().set_boot(true);
    assert!(boot.is_fixed());
    assert!(!boot.is_resolved());
    let free = Section::new("g").unwrap().set_pages(2);
    assert!(!free.is_fixed());
    assert!(free.needs_allocating());
    let grow = Section::new("h").unwrap().set_maximize(true).set_address(0).set_pages(1);
    assert!(grow.needs_maximizing());
    assert!(!grow.needs_allocating());
    assert!(!grow.is_resolved());
}

#[test]
fn required_pages_and_errors() {
    let s = Section::new("s").unwrap().set_size(2049);
    assert_eq!(s.required_pages(1024), Ok(3));
    assert_eq!(s.pages_required(1024), 3);
    let s = s.set_pages(5);
    assert_eq!(s.required_pages(1024), Ok(5));
    assert_eq!(s.pages_required(1024), 5);
    let both = Section::new("b").unwrap().set_pages(5).set_size(100);
    assert_eq!(both.pages_required(100), 5);
    let bytes = Section::new("c").unwrap().set_pages(1).set_size(301);
    assert_eq!(bytes.pages_required(100), 4);
    let none = Section::new("n").unwrap();
    assert_eq!(none.required_pages(1024), Err(SectionError::NoSizeBound));
    assert_eq!(none.pages_required(1024), 0);
    let zero = Section::new("z").unwrap().set_size(0);
    assert_eq!(zero.required_pages(8), Err(SectionError::NoSizeBound));
}

#[test]
fn resolve_errors() {
    let chip = Chip::new(10, 100, 20).unwrap();
    let unplaced = Section::new("t").unwrap().set_pages(1);
    assert_eq!(
        unplaced.resolve_page_and_size(&chip),
        Err(SectionError::UnresolvedSection)
    );
    assert_eq!(unplaced.start_address(&chip), Err(SectionError::UnresolvedSection));
    let boot = Section::new("t").unwrap().set_boot(true);
    assert_eq!(boot.start_address(&chip), Ok(100));
    assert_eq!(
        boot.resolve_page_and_size(&chip),
        Err(SectionError::UnresolvedSection)
    );
    let boot_sized = boot.set_size(0);
    assert_eq!(
        boot_sized.resolve_page_and_size(&chip),
        Err(SectionError::NoSizeBound)
    );
}

#[test]
fn as_resolved_uses_linker_name() {
    let chip = Chip::new(256, 0x1000, 4096).unwrap();
    let s = Section::new("app")
        .unwrap()
        .set_address(0x1100)
        .set_size(300)
        .set_linker_name("FLASH")
        .unwrap();
    let r = s.as_resolved(&chip).unwrap();
    assert_eq!(r.name, "app");
    assert_eq!(r.linker_name, "FLASH");
    assert_eq!(r.address, 0x1100);
    assert_eq!(r.pages, 2);
    assert_eq!(r.size, 300);
    let grow = s.set_maximize(true);
    assert_eq!(
        grow.as_resolved(&chip).unwrap_err(),
        SectionError::UnresolvedSection
    );
}

#[test]
fn invalid_linker_name() {
    let s = Section::new("a").unwrap();
    assert_eq!(
        s.set_linker_name("bad name").unwrap_err(),
        SectionError::InvalidSectionName
    );
}

#[test]
fn display_text() {
    let s = Section::new("data").unwrap();
    assert_eq!(s.display(), "Section(data)");
}

#[test]
fn metadata_replacement() {
    let s = Section::new("m").unwrap().set_pages(2).replace_metadata(7u32);
    assert_eq!(*s.metadata(), 7);
    assert_eq!(s.pages(), Some(2));
    let c = s.clear_metadata();
    assert_eq!(c.pages(), Some(2));
}

#[test]
fn chip_sizes() {
    let chip = Chip::new(2048, 0x800_000, 64 * 1024).unwrap();
    assert_eq!(chip.start_address(), 0x800_000);
    assert_eq!(chip.end_address(), 0x80F_FFF);
    assert_eq!(chip.total_size(), 64 * 1024);
    assert_eq!(chip.page_size(), &PageSize::Uniform(2048));
    assert_eq!(
        Chip::new(3, 0, 10).unwrap_err(),
        ChipError::TotalSizePageSizeMismatch
    );
    assert!(Chip::new_bytes(4, 0, 16).is_ok());
    assert!(Chip::new_bytes(4, 0, 18).is_err());
}
