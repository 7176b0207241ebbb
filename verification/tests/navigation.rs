use snd_review::anchors::{collect_anchors, next_anchor, previous_anchor};
use snd_review::buffer::{ChannelScope, Region, RegionId};
use snd_review::markers::{MarkerList, MARKER_TYPE_BLUE};
use snd_review::multi_select::MultiSelect;
use snd_review::selection::{SamplePosition, Selection};
use snd_review::script::LuaSelection;
use std::collections::BTreeSet;

#[test]
fn collects_markers_and_region_bounds() {
    let mut markers = MarkerList::new();
    markers.insert(50, MARKER_TYPE_BLUE.to_string(), [0; 4], None);
    let regions = vec![Region::new(RegionId(1), 100, 200, ChannelScope::all())];
    let anchors = collect_anchors(&markers, &regions);
    assert_eq!(anchors, vec![50, 100, 200]);
}

#[test]
fn navigates_anchors() {
    let anchors = vec![50, 100, 200];
    assert_eq!(previous_anchor(&anchors, 150), Some(100));
    assert_eq!(next_anchor(&anchors, 150), Some(200));
    assert_eq!(next_anchor(&anchors, 250), None);
    assert_eq!(previous_anchor(&anchors, 50), None);
}

#[test]
fn anchors_are_sorted_and_unique() {
    let mut markers = MarkerList::new();
    markers.insert(300, MARKER_TYPE_BLUE.to_string(), [0; 4], None);
    markers.insert(10, MARKER_TYPE_BLUE.to_string(), [0; 4], None);
    let regions = vec![
        Region::new(RegionId(1), 300, 10, ChannelScope::all()),
        Region::new(RegionId(2), 20, 20, ChannelScope::single(1)),
    ];
    assert_eq!(collect_anchors(&markers, &regions), vec![10, 20, 300]);
}

#[test]
fn click_selects_exclusively_and_toggles_off() {
    let mut sel = MultiSelect::all(3);
    sel.click(1, false, false, 3);
    assert_eq!(sel.selected.iter().copied().collect::<Vec<_>>(), vec![1]);
    sel.click(1, false, false, 3);
    assert!(sel.selected.is_empty());
}

#[test]
fn shift_click_extends_range_from_anchor() {
    let mut sel = MultiSelect {
        selected: BTreeSet::from([0]),
        anchor: 0,
    };
    sel.click(2, true, false, 3);
    assert_eq!(
        sel.selected.iter().copied().collect::<Vec<_>>(),
        vec![0, 1, 2]
    );
}

#[test]
fn disjoint_clicks_toggle_and_extend() {
    let mut sel = MultiSelect::all(4);
    sel.click(2, false, true, 4);
    assert_eq!(sel.selected.iter().copied().collect::<Vec<_>>(), vec![0, 1, 3]);
    assert_eq!(sel.anchor, 2);
    sel.click(7, false, false, 4);
    assert_eq!(sel.selected.len(), 3);
    sel.click(0, true, true, 4);
    assert_eq!(
        sel.selected.iter().copied().collect::<Vec<_>>(),
        vec![0, 1, 2, 3]
    );
}

#[test]
fn regions_normalize_and_contain() {
    let region = Region::new(RegionId(3), 40, 10, ChannelScope::single(1));
    assert_eq!((region.start, region.end), (10, 40));
    assert!(region.contains(40, 1));
    assert!(!region.contains(41, 1));
    assert!(!region.contains(20, 0));
    assert!(ChannelScope::all().applies_to(5));
}

#[test]
fn script_selection_reports_caret_and_region() {
    let none = LuaSelection::from_selection(&Selection::Nothing);
    assert_eq!(none.kind, "none");
    let caret = Selection::Position(SamplePosition {
        sample: 12,
        channels: ChannelScope::all(),
    });
    assert_eq!(caret.position_sample(), Some(12));
    let lua = LuaSelection::from_selection(&caret);
    assert_eq!((lua.kind.as_str(), lua.start, lua.stop), ("position", Some(12), Some(12)));
    let region = Selection::Region {
        region_id: None,
        start: 3,
        end: 9,
        channels: ChannelScope::single(0),
    };
    let lua = LuaSelection::from_selection(&region);
    assert_eq!((lua.kind.as_str(), lua.start, lua.stop), ("region", Some(3), Some(9)));
    assert_eq!(region.position_sample(), None);
}

#[test]
fn secondary_click_toggles_disjoint_items() {
    let mut sel = MultiSelect {
        selected: BTreeSet::from([0]),
        anchor: 0,
    };
    sel.click(2, false, true, 3);
    assert_eq!(sel.selected.iter().copied().collect::<Vec<_>>(), vec![0, 2]);
    sel.click(0, false, true, 3);
    assert_eq!(sel.selected.iter().copied().collect::<Vec<_>>(), vec![2]);
}

#[test]
fn shift_secondary_adds_range_to_selection() {
    let mut sel = MultiSelect {
        selected: BTreeSet::from([0]),
        anchor: 0,
    };
    sel.click(2, false, true, 3);
    sel.click(1, true, true, 3);
    assert_eq!(
        sel.selected.iter().copied().collect::<Vec<_>>(),
        vec![0, 1, 2]
    );
}
