use scope_backend::event_object_frequencies::{
    apply_selection, filter_ocel_histograms, FilterEvent, FilterLog, FilterObject, FilteredLog, HistogramFilter,
    Selection,
};

fn ev(id: &str, t: &str, objects: &[&str]) -> FilterEvent {
    FilterEvent { id: id.to_string(), event_type: t.to_string(), object_ids: objects.iter().map(|o| o.to_string()).collect() }
}

fn obj(id: &str, t: &str) -> FilterObject {
    FilterObject { id: id.to_string(), object_type: t.to_string() }
}

fn port_log() -> FilterLog {
    FilterLog {
        event_types: vec!["Arrive".to_string(), "Depart".to_string(), "Unused".to_string()],
        object_types: vec!["Truck".to_string(), "Container".to_string()],
        events: vec![
            ev("e1", "Arrive", &["t1", "c1"]),
            ev("e2", "Arrive", &["t1", "t2"]),
            ev("e3", "Depart", &["c1"]),
            ev("e4", "Depart", &["c1", "c2"]),
        ],
        objects: vec![obj("t1", "Truck"), obj("t2", "Truck"), obj("c1", "Container"), obj("c2", "Container")],
    }
}

fn filter(et: &str, ot: &str, ranges: &[(usize, usize)]) -> HistogramFilter {
    HistogramFilter { event_type: et.to_string(), object_type: ot.to_string(), ranges: ranges.to_vec() }
}

fn events_of(r: &FilteredLog) -> Vec<(usize, Vec<usize>)> {
    r.events.clone()
}

#[test]
fn event_masks_keep_events_in_range_and_prune_objects() {
    let sel = Selection { event_perspective_filters: Some(vec![filter("Arrive", "Truck", &[(1, 1)])]), object_perspective_filters: None };
    let r = apply_selection(&port_log(), &sel);
    assert_eq!(events_of(&r), vec![(0, vec![0, 1]), (2, vec![0]), (3, vec![0, 1])]);
    assert_eq!(r.objects, vec![0, 2, 3]);
    assert_eq!(r.event_types, vec![0, 1]);
    assert_eq!(r.object_types, vec![0, 1]);
}

#[test]
fn object_masks_count_distinct_related_events() {
    let sel = Selection { event_perspective_filters: None, object_perspective_filters: Some(vec![filter("Depart", "Container", &[(2, 3)])]) };
    let r = apply_selection(&port_log(), &sel);
    assert_eq!(r.objects, vec![0, 1, 2]);
    assert_eq!(events_of(&r), vec![(0, vec![0, 1]), (1, vec![0, 1]), (2, vec![0]), (3, vec![0])]);
    assert_eq!(r.event_types, vec![0, 1]);
}

#[test]
fn unused_types_are_dropped() {
    let sel = Selection { event_perspective_filters: Some(vec![filter("Depart", "Container", &[(5, 6)])]), object_perspective_filters: None };
    let r = apply_selection(&port_log(), &sel);
    assert_eq!(events_of(&r), vec![(0, vec![0, 1]), (1, vec![0, 1])]);
    assert_eq!(r.objects, vec![0, 1, 2]);
    assert_eq!(r.event_types, vec![0]);
    assert_eq!(r.object_types, vec![0, 1]);
}

#[test]
fn selections_are_checked_before_filtering() {
    let log = port_log();
    assert_eq!(filter_ocel_histograms(&log, &vec![]).unwrap_err(), "No selections provided");
    let empty = Selection { event_perspective_filters: None, object_perspective_filters: None };
    let good = Selection { event_perspective_filters: Some(vec![]), object_perspective_filters: None };
    assert_eq!(
        filter_ocel_histograms(&log, &vec![good.clone(), empty]).unwrap_err(),
        "Each selection must contain at least one filter"
    );
    let out = filter_ocel_histograms(&log, &vec![good]).unwrap();
    assert_eq!(out.len(), 1);
    assert_eq!(out[0].objects, vec![0, 1, 2, 3]);
    assert_eq!(out[0].event_types, vec![0, 1]);
}
