use phonia::annotation::Annotation;
use phonia::ids::{BoundaryId, IntervalId, PointId, TierId};
use phonia::issues::AnnotationError;
use phonia::model::{Interval, IntervalTier, Point, PointTier, Tier, TierKind, TierRelation, TierSlot};
use phonia::time::Time;

fn t(x: f64) -> Time {
    Time::from_bits(x.to_bits())
}

fn document() -> Annotation {
    let intervals = vec![(1, 10, 11, 0.0, 0.25), (2, 11, 12, 0.25, 0.5), (3, 12, 13, 0.5, 1.0)]
        .into_iter()
        .map(|(id, start, end, xmin, xmax)| Interval {
            id: IntervalId(id),
            start_boundary: BoundaryId(start),
            end_boundary: BoundaryId(end),
            xmin: t(xmin),
            xmax: t(xmax),
            label: format!("i{id}"),
        })
        .collect();
    let points = vec![(7, 0.1), (8, 0.3), (9, 0.6)]
        .into_iter()
        .map(|(id, time)| Point { id: PointId(id), time: t(time), label: format!("p{id}") })
        .collect();
    Annotation::from_raw(
        t(0.0),
        t(1.0),
        vec![
            TierSlot {
                id: TierId(1),
                relation: TierRelation::Independent,
                tier: Tier::Interval(IntervalTier { name: "words".to_owned(), intervals }),
            },
            TierSlot {
                id: TierId(2),
                relation: TierRelation::Independent,
                tier: Tier::Point(PointTier { name: "tones".to_owned(), points }),
            },
        ],
    )
}

fn interval_ids(r: Result<Vec<Interval>, AnnotationError>) -> Vec<u64> {
    r.unwrap().iter().map(|i| i.id.0).collect()
}

fn point_ids(r: Result<Vec<Point>, AnnotationError>) -> Vec<u64> {
    r.unwrap().iter().map(|p| p.id.0).collect()
}

#[test]
fn intervals_reaching_into_a_window_are_listed_in_tier_order() {
    let doc = document();
    assert_eq!(interval_ids(doc.intervals_in_range(TierId(1), t(0.2), t(0.3))), vec![1, 2]);
    assert_eq!(interval_ids(doc.intervals_in_range(TierId(1), t(0.3), t(0.2))), vec![1, 2]);
    assert_eq!(interval_ids(doc.intervals_in_range(TierId(1), t(0.25), t(0.5))), vec![2]);
    assert_eq!(interval_ids(doc.intervals_in_range(TierId(1), t(0.4), t(0.4))), vec![2]);
    assert_eq!(interval_ids(doc.intervals_in_range(TierId(1), t(f64::NAN), t(0.3))), vec![2]);
    let labels: Vec<String> = doc
        .intervals_in_range(TierId(1), t(0.0), t(1.0))
        .unwrap()
        .into_iter()
        .map(|i| i.label)
        .collect();
    assert_eq!(labels, vec!["i1", "i2", "i3"]);
}

#[test]
fn points_in_a_half_open_window_are_listed_in_tier_order() {
    let doc = document();
    assert_eq!(point_ids(doc.points_in_range(TierId(2), t(0.1), t(0.6))), vec![7, 8]);
    assert_eq!(point_ids(doc.points_in_range(TierId(2), t(0.6), t(0.0))), vec![7, 8]);
    assert_eq!(point_ids(doc.points_in_range(TierId(2), t(0.0), t(1.0))), vec![7, 8, 9]);
}

#[test]
fn window_queries_name_unknown_and_mismatched_tiers() {
    let doc = document();
    assert_eq!(
        doc.intervals_in_range(TierId(9), t(0.0), t(1.0)).unwrap_err(),
        AnnotationError::UnknownTier { tier: TierId(9) }
    );
    assert_eq!(
        doc.intervals_in_range(TierId(2), t(0.0), t(1.0)).unwrap_err(),
        AnnotationError::InvalidTierKind { tier: TierId(2), expected: TierKind::Interval }
    );
    assert_eq!(
        doc.points_in_range(TierId(1), t(0.0), t(1.0)).unwrap_err(),
        AnnotationError::InvalidTierKind { tier: TierId(1), expected: TierKind::Point }
    );
    assert_eq!(
        doc.points_in_range(TierId(5), t(0.0), t(1.0)).unwrap_err(),
        AnnotationError::UnknownTier { tier: TierId(5) }
    );
}
