use memsolve::chip::Chip;
use memsolve::layout::{Layout, ResolvedLayout};
use memsolve::section::Section;
use memsolve::Memory;

#[test]
fn bins() {
    let chip = Chip::new(1000, 0, 10000).unwrap();
    let mut memory = Memory::new(chip);
    [0, 2000, 3000, 7000]
        .into_iter()
        .map(|i| {
            Section::new(&format!("sec{i}"))
                .unwrap()
                .set_address(i)
                .set_size(1000)
                .set_pages(1)
        })
        .for_each(|s| memory.add_section(s));

    let bins = memory.memory_bins();
    let bins = bins.as_slice();
    assert_eq!(bins.len(), 3);
    assert_eq!(bins[0].start_address, 1000);
    assert_eq!(bins[0].end_address, 2000);
    assert_eq!(bins[1].start_address, 4000);
    assert_eq!(bins[1].end_address, 7000);
    assert_eq!(bins[2].start_address, 8000);
    assert_eq!(bins[2].end_address, 10000);
}

#[test]
fn bins_of_empty_layout_cover_the_chip() {
    let chip = Chip::new(512, 0x100, 4096).unwrap();
    let memory: Memory<()> = Memory::new(chip);
    let bins = memory.memory_bins();
    let bins = bins.as_slice();
    assert_eq!(bins.len(), 1);
    assert_eq!(bins[0].start_address, 0x100);
    assert_eq!(bins[0].end_address, 0x1100);
    assert_eq!(bins[0].page_size, 512);
    assert_eq!(bins[0].num_pages(), 8);
    assert_eq!(memory.memory_bins().num_pages(), 8);
}

#[test]
fn bins_with_unsorted_fixed_sections_at_both_ends() {
    let chip = Chip::new(100, 0, 1000).unwrap();
    let mut memory = Memory::new(chip);
    memory.add_section(Section::new("end").unwrap().set_address(900).set_size(100));
    memory.add_section(Section::new("start").unwrap().set_address(0).set_pages(2));
    memory.add_section(Section::new("mid").unwrap().set_address(500).set_pages(1));
    let bins = memory.memory_bins();
    let bins = bins.as_slice();
    assert_eq!(bins.len(), 2);
    assert_eq!((bins[0].start_address, bins[0].end_address), (200, 500));
    assert_eq!((bins[1].start_address, bins[1].end_address), (600, 900));
    assert!(memory.checked_memory_bins().is_some());
}

#[test]
fn overlapping_fixed_sections_have_no_bins() {
    let chip = Chip::new(100, 0, 1000).unwrap();
    let mut memory = Memory::new(chip);
    memory.add_section(Section::new("a").unwrap().set_address(0).set_pages(3));
    memory.add_section(Section::new("b").unwrap().set_address(200).set_pages(1));
    assert!(memory.checked_memory_bins().is_none());
}

#[test]
fn bin_space_and_fit() {
    let chip = Chip::new(10, 0, 100).unwrap();
    let memory: Memory<()> = Memory::new(chip);
    let bins = memory.memory_bins();
    let bin = bins.as_slice()[0];
    assert!(bin.contains(0));
    assert!(!bin.contains(100));
    assert_eq!(bin.space_until_end(95), 5);
    assert_eq!(bin.space_until_end(100), 0);
    assert_eq!(bin.pages_until_end(35), 6);
    let s = Section::new("s").unwrap().set_pages(6);
    assert!(bin.section_fits_at_address(35, &s));
    assert!(!bin.section_fits_at_address(45, &s));
    let t = Section::new("t").unwrap().set_size(11);
    assert!(bin.section_fits_at_address(89, &t));
    assert!(!bin.section_fits_at_address(90, &t));
}

#[test]
fn layout_merge_adds_and_merges() {
    let mut base = Layout::new(vec![
        Section::new("app").unwrap().set_maximize(true),
        Section::new("boot").unwrap().set_boot(true).set_size(0x4000),
    ]);
    let extra = Layout::new(vec![
        Section::new("storage").unwrap().set_pages(2),
        Section::new("boot").unwrap().set_size(0x8000),
        Section::new("storage").unwrap().set_pages(4),
    ]);
    base.merge(&extra);
    assert_eq!(base.len(), 3);
    assert_eq!(base.find("boot").unwrap().size(), Some(0x8000));
    assert_eq!(base.find("storage").unwrap().pages(), Some(4));
    assert!(base.find("app").unwrap().maximize());
    assert!(base.find("missing").is_none());
    assert_eq!(base.position("storage"), Some(2));
    let names: Vec<&str> = base.as_slice().iter().map(|s| s.name()).collect();
    assert_eq!(names, vec!["app", "boot", "storage"]);
}

#[test]
fn memory_layout_access() {
    let chip = Chip::new(4, 0, 64).unwrap();
    let mut memory = Memory::new(chip.clone());
    assert!(memory.layout().is_empty());
    memory.add_section(Section::new("a").unwrap().set_address(0).set_pages(1));
    assert!(memory.is_resolved());
    memory.layout_mut().push(Section::new("b").unwrap().set_pages(1));
    assert_eq!(memory.layout().len(), 2);
    assert!(!memory.is_resolved());
    memory.set_layout(Layout::empty());
    assert!(memory.layout().is_empty());
    assert_eq!(memory.chip(), &chip);
    assert!(Layout::<()>::default().is_empty());
}

#[test]
fn resolved_sections_of_fixed_sections() {
    let chip = Chip::new(4, 0, 64).unwrap();
    let mut memory = Memory::new(chip);
    memory.add_section(Section::new("a").unwrap().set_address(8).set_size(5));
    memory.add_section(Section::new("b").unwrap().set_pages(1));
    memory.add_section(Section::new("c").unwrap().set_boot(true).set_pages(2));
    let r = memory.resolved_sections();
    assert_eq!(r.len(), 2);
    assert_eq!((r[0].name.as_str(), r[0].address, r[0].pages, r[0].size), ("a", 8, 2, 5));
    assert_eq!((r[1].name.as_str(), r[1].address, r[1].pages, r[1].size), ("c", 0, 2, 8));
}

#[test]
fn linker_memory_regions() {
    let chip = Chip::new(4, 0, 64).unwrap();
    let mut memory = Memory::new(chip);
    memory.add_section(
        Section::new("a")
            .unwrap()
            .set_address(0x10)
            .set_size(0x20)
            .set_linker_name("FLASH")
            .unwrap(),
    );
    let layout = ResolvedLayout::from_sections(memory.resolved_sections());
    let text = layout.into_memory().to_ldmemory();
    assert!(text.contains("FLASH"));
    assert!(text.contains("ORIGIN = 0x10"));
    assert!(text.contains("LENGTH = 0x20"));
    assert_eq!(layout.into_memory().sections().len(), 1);
    let region = layout.as_slice()[0].as_memory_section();
    assert!(region.to_ldmemory().contains("FLASH"));
}

#[test]
fn resolved_layout_extend() {
    let chip = Chip::new(4, 0, 64).unwrap();
    let mut memory = Memory::new(chip);
    memory.add_section(Section::new("a").unwrap().set_address(0).set_pages(1));
    let mut layout = ResolvedLayout::from_sections(Vec::new());
    assert!(layout.is_empty());
    layout.extend(memory.resolved_sections());
    layout.extend(memory.resolved_sections());
    assert_eq!(layout.len(), 2);
}
