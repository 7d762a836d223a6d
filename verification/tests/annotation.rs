use phonia::annotation::Annotation;
use phonia::ids::{BoundaryId, IntervalId, PointId, TierId};
use phonia::issues::{AnnotationError, IntegrityIssue};
use phonia::model::{
    AlignMode, Interval, IntervalTier, LabelTarget, Point, PointTier, Tier, TierRelation, TierSlot,
};
use phonia::payloads::InverseMutation;
use phonia::search::{LabelQuery, MatchSpan};
use phonia::time::Time;

fn t(x: f64) -> Time {
    Time::from_bits(x.to_bits())
}

fn f(time: Time) -> f64 {
    f64::from_bits(time.to_bits())
}

fn interval(id: u64, start: u64, end: u64, xmin: f64, xmax: f64) -> Interval {
    Interval {
        id: IntervalId(id),
        start_boundary: BoundaryId(start),
        end_boundary: BoundaryId(end),
        xmin: t(xmin),
        xmax: t(xmax),
        label: String::new(),
    }
}

fn point(id: u64, time: f64, label: &str) -> Point {
    Point {
        id: PointId(id),
        time: t(time),
        label: label.to_owned(),
    }
}

fn point_slot(id: u64, name: &str, points: Vec<Point>) -> TierSlot {
    TierSlot {
        id: TierId(id),
        relation: TierRelation::Independent,
        tier: Tier::Point(PointTier {
            name: name.to_owned(),
            points,
        }),
    }
}

fn empty_point_slot(id: u64, name: &str) -> TierSlot {
    point_slot(id, name, Vec::new())
}

fn raw_interval_doc(intervals: Vec<(u64, u64, u64, f64, f64)>) -> Annotation {
    Annotation::from_raw(
        t(0.0),
        t(1.0),
        vec![TierSlot {
            id: TierId(1),
            relation: TierRelation::Independent,
            tier: Tier::Interval(IntervalTier {
                name: "raw".to_owned(),
                intervals: intervals
                    .into_iter()
                    .map(|(id, start, end, xmin, xmax)| interval(id, start, end, xmin, xmax))
                    .collect(),
            }),
        }],
    )
}

fn assert_single_issue<P>(issues: Vec<IntegrityIssue>, predicate: P)
where
    P: FnOnce(&IntegrityIssue) -> bool,
{
    assert_eq!(issues.len(), 1, "unexpected issues: {issues:?}");
    assert!(predicate(&issues[0]), "unexpected issue: {:?}", issues[0]);
}

fn basic_document() -> Annotation {
    let parent = TierSlot {
        id: TierId(1),
        relation: TierRelation::Independent,
        tier: Tier::Interval(IntervalTier {
            name: "parent".to_owned(),
            intervals: vec![interval(1, 1, 2, 0.0, 0.5), interval(2, 2, 3, 0.5, 1.0)],
        }),
    };
    let aligned = TierSlot {
        id: TierId(2),
        relation: TierRelation::AlignedBoundaries { with: TierId(1) },
        tier: Tier::Interval(IntervalTier {
            name: "aligned".to_owned(),
            intervals: vec![interval(3, 4, 5, 0.0, 0.5), interval(4, 5, 6, 0.5, 1.0)],
        }),
    };
    let child = TierSlot {
        id: TierId(3),
        relation: TierRelation::ChildOf { parent: TierId(1) },
        tier: Tier::Interval(IntervalTier {
            name: "child".to_owned(),
            intervals: vec![interval(5, 7, 8, 0.0, 0.5), interval(6, 8, 9, 0.5, 1.0)],
        }),
    };
    let points = point_slot(4, "points", vec![point(1, 0.25, "p"), point(2, 0.75, "q")]);
    let doc = Annotation::from_raw(t(0.0), t(1.0), vec![parent, aligned, child, points]);
    assert_eq!(doc.validate(), Vec::new());
    doc
}

fn first_interval_target(doc: &Annotation, tier: TierId) -> LabelTarget {
    let slot = doc.tier(tier).unwrap();
    let Tier::Interval(tier_data) = &slot.tier else {
        panic!("expected interval tier");
    };
    LabelTarget::Interval {
        tier,
        interval: tier_data.intervals[0].id,
    }
}

#[test]
fn validation_reports_invalid_time_domain() {
    let doc = Annotation::from_raw(t(1.0), t(0.0), Vec::new());
    assert_single_issue(doc.validate(), |issue| {
        matches!(issue, IntegrityIssue::InvalidTimeDomain { .. })
    });
}

#[test]
fn validation_reports_non_finite_time() {
    let doc = Annotation::from_raw(
        t(0.0),
        t(1.0),
        vec![point_slot(1, "points", vec![point(1, f64::NAN, "")])],
    );
    assert_single_issue(doc.validate(), |issue| {
        matches!(issue, IntegrityIssue::NonFiniteTime { .. })
    });
}

#[test]
fn validation_reports_duplicate_tier_id() {
    let doc = Annotation::from_raw(
        t(0.0),
        t(1.0),
        vec![empty_point_slot(1, "left"), empty_point_slot(1, "right")],
    );
    assert_single_issue(doc.validate(), |issue| {
        matches!(issue, IntegrityIssue::DuplicateTierId { .. })
    });
}

#[test]
fn validation_reports_duplicate_interval_id() {
    let doc = raw_interval_doc(vec![(1, 1, 2, 0.0, 0.5), (1, 2, 3, 0.5, 1.0)]);
    assert_single_issue(doc.validate(), |issue| {
        matches!(issue, IntegrityIssue::DuplicateIntervalId { .. })
    });
}

#[test]
fn validation_reports_duplicate_point_id() {
    let doc = Annotation::from_raw(
        t(0.0),
        t(1.0),
        vec![point_slot(1, "points", vec![point(1, 0.2, ""), point(1, 0.8, "")])],
    );
    assert_single_issue(doc.validate(), |issue| {
        matches!(issue, IntegrityIssue::DuplicatePointId { .. })
    });
}

#[test]
fn validation_reports_duplicate_boundary_id() {
    let doc = raw_interval_doc(vec![(1, 1, 2, 0.0, 0.5), (2, 2, 1, 0.5, 1.0)]);
    assert_single_issue(doc.validate(), |issue| {
        matches!(issue, IntegrityIssue::DuplicateBoundaryId { .. })
    });
}

#[test]
fn validation_reports_empty_interval_tier() {
    let doc = Annotation::from_raw(
        t(0.0),
        t(1.0),
        vec![TierSlot {
            id: TierId(1),
            relation: TierRelation::Independent,
            tier: Tier::Interval(IntervalTier {
                name: "empty".to_owned(),
                intervals: Vec::new(),
            }),
        }],
    );
    assert_single_issue(doc.validate(), |issue| {
        matches!(issue, IntegrityIssue::IntervalTierEmpty { .. })
    });
}

#[test]
fn validation_reports_domain_start_mismatch() {
    let doc = raw_interval_doc(vec![(1, 1, 2, 0.1, 1.0)]);
    assert_single_issue(doc.validate(), |issue| {
        matches!(issue, IntegrityIssue::DomainStartMismatch { .. })
    });
}

#[test]
fn validation_reports_domain_end_mismatch() {
    let doc = raw_interval_doc(vec![(1, 1, 2, 0.0, 0.9)]);
    assert_single_issue(doc.validate(), |issue| {
        matches!(issue, IntegrityIssue::DomainEndMismatch { .. })
    });
}

#[test]
fn validation_reports_interval_unsorted() {
    let doc = Annotation::from_raw(
        t(0.0),
        t(0.6),
        vec![TierSlot {
            id: TierId(1),
            relation: TierRelation::Independent,
            tier: Tier::Interval(IntervalTier {
                name: "raw".to_owned(),
                intervals: vec![interval(1, 1, 2, 0.0, 0.7), interval(2, 2, 3, 0.7, 0.6)],
            }),
        }],
    );
    assert_single_issue(doc.validate(), |issue| {
        matches!(issue, IntegrityIssue::IntervalUnsorted { .. })
    });
}

#[test]
fn validation_reports_interval_overlap() {
    let doc = raw_interval_doc(vec![(1, 1, 2, 0.0, 0.7), (2, 2, 3, 0.5, 1.0)]);
    assert_single_issue(doc.validate(), |issue| {
        matches!(issue, IntegrityIssue::IntervalOverlap { .. })
    });
}

#[test]
fn validation_reports_interval_gap() {
    let doc = raw_interval_doc(vec![(1, 1, 2, 0.0, 0.4), (2, 2, 3, 0.6, 1.0)]);
    assert_single_issue(doc.validate(), |issue| {
        matches!(issue, IntegrityIssue::IntervalGap { .. })
    });
}

#[test]
fn validation_reports_boundary_continuity_mismatch() {
    let doc = raw_interval_doc(vec![(1, 1, 2, 0.0, 0.5), (2, 3, 4, 0.5, 1.0)]);
    assert_single_issue(doc.validate(), |issue| {
        matches!(issue, IntegrityIssue::BoundaryContinuityMismatch { .. })
    });
}

#[test]
fn validation_reports_point_outside_domain() {
    let doc = Annotation::from_raw(
        t(0.0),
        t(1.0),
        vec![point_slot(1, "points", vec![point(1, 1.2, "")])],
    );
    assert_single_issue(doc.validate(), |issue| {
        matches!(issue, IntegrityIssue::PointOutsideDomain { .. })
    });
}

#[test]
fn validation_reports_unsorted_point_tier() {
    let doc = Annotation::from_raw(
        t(0.0),
        t(1.0),
        vec![point_slot(1, "points", vec![point(1, 0.8, ""), point(2, 0.2, "")])],
    );
    assert_single_issue(doc.validate(), |issue| {
        matches!(issue, IntegrityIssue::PointUnsorted { .. })
    });
}

#[test]
fn validation_reports_duplicate_point_time() {
    let doc = Annotation::from_raw(
        t(0.0),
        t(1.0),
        vec![point_slot(1, "points", vec![point(1, 0.2, ""), point(2, 0.2, "")])],
    );
    assert_single_issue(doc.validate(), |issue| {
        matches!(issue, IntegrityIssue::DuplicatePointTime { .. })
    });
}

#[test]
fn validation_reports_relation_target_missing() {
    let doc = Annotation::from_raw(
        t(0.0),
        t(1.0),
        vec![TierSlot {
            id: TierId(1),
            relation: TierRelation::ChildOf {
                parent: TierId(999),
            },
            tier: Tier::Interval(IntervalTier {
                name: "child".to_owned(),
                intervals: vec![interval(1, 1, 2, 0.0, 1.0)],
            }),
        }],
    );
    assert_single_issue(doc.validate(), |issue| {
        matches!(issue, IntegrityIssue::MissingTierRelationTarget { .. })
    });
}

#[test]
fn validation_reports_relation_kind_mismatch() {
    let doc = Annotation::from_raw(
        t(0.0),
        t(1.0),
        vec![
            TierSlot {
                id: TierId(1),
                relation: TierRelation::Independent,
                tier: Tier::Interval(IntervalTier {
                    name: "parent".to_owned(),
                    intervals: vec![interval(1, 1, 2, 0.0, 1.0)],
                }),
            },
            TierSlot {
                id: TierId(2),
                relation: TierRelation::ChildOf { parent: TierId(1) },
                tier: Tier::Point(PointTier {
                    name: "point-child".to_owned(),
                    points: vec![point(1, 0.5, "")],
                }),
            },
        ],
    );
    assert_single_issue(doc.validate(), |issue| {
        matches!(issue, IntegrityIssue::RelationTierKindMismatch { .. })
    });
}

#[test]
fn validation_reports_aligned_boundary_missing() {
    let left = TierSlot {
        id: TierId(1),
        relation: TierRelation::AlignedBoundaries { with: TierId(2) },
        tier: Tier::Interval(IntervalTier {
            name: "left".to_owned(),
            intervals: vec![interval(1, 1, 2, 0.0, 0.5), interval(2, 2, 3, 0.5, 1.0)],
        }),
    };
    let right = TierSlot {
        id: TierId(2),
        relation: TierRelation::Independent,
        tier: Tier::Interval(IntervalTier {
            name: "right".to_owned(),
            intervals: vec![interval(3, 4, 5, 0.0, 1.0)],
        }),
    };
    let doc = Annotation::from_raw(t(0.0), t(1.0), vec![left, right]);
    assert_single_issue(doc.validate(), |issue| {
        matches!(issue, IntegrityIssue::AlignedBoundaryMissing { .. })
    });
}

#[test]
fn validation_reports_orphan_child_interval() {
    let parent = TierSlot {
        id: TierId(1),
        relation: TierRelation::Independent,
        tier: Tier::Interval(IntervalTier {
            name: "parent".to_owned(),
            intervals: vec![interval(1, 1, 2, 0.0, 0.5), interval(2, 2, 3, 0.5, 1.0)],
        }),
    };
    let child = TierSlot {
        id: TierId(2),
        relation: TierRelation::ChildOf { parent: TierId(1) },
        tier: Tier::Interval(IntervalTier {
            name: "child".to_owned(),
            intervals: vec![interval(3, 4, 5, 0.0, 1.0)],
        }),
    };
    let doc = Annotation::from_raw(t(0.0), t(1.0), vec![parent, child]);
    assert_single_issue(doc.validate(), |issue| {
        matches!(issue, IntegrityIssue::OrphanChildInterval { .. })
    });
}

#[test]
fn rejects_control_characters_in_labels() {
    let mut doc = basic_document();
    let target = first_interval_target(&doc, TierId(1));
    let err = doc.set_label(target, "bad\nlabel").unwrap_err();
    assert!(matches!(err, AnnotationError::InvalidLabelControl { .. }));
}

#[test]
fn search_supports_ipa_combining_marks_and_regex() {
    let mut doc = Annotation::new(t(0.0), t(1.0)).unwrap();
    let tier = doc
        .add_interval_tier("ipa", TierRelation::Independent)
        .unwrap();
    let point_tier = doc
        .add_point_tier(
            "points",
            vec![(t(0.5), "tʃa\u{301}".to_owned())],
            TierRelation::Independent,
        )
        .unwrap();
    let interval_target = first_interval_target(&doc, tier);
    doc.set_label(interval_target, "a\u{301} ɬa").unwrap();

    let substring_hits = doc.search(&LabelQuery::substring("a\u{301}"));
    assert_eq!(substring_hits.len(), 2);
    assert_eq!(substring_hits[0].span, MatchSpan { start: 0, end: 3 });

    let regex_hits = doc.search(&LabelQuery::regex(r"\p{M}").in_tiers(vec![tier, point_tier]));
    assert_eq!(regex_hits.len(), 2);
    assert_eq!(regex_hits[0].span, MatchSpan { start: 1, end: 3 });
}

struct Rng(u64);

impl Rng {
    fn next(&mut self) -> u64 {
        self.0 ^= self.0 << 13;
        self.0 ^= self.0 >> 7;
        self.0 ^= self.0 << 17;
        self.0
    }
}

fn run_random_sequences(restore: bool) {
    let mut rng = Rng(0x2545_f491_4f6c_dd1du64);
    for _ in 0..300 {
        let mut doc = basic_document();
        let original = doc.duplicate();
        let mut inverses = Vec::new();
        let steps = 20 + (rng.next() % 80) as usize;
        for _ in 0..steps {
            let operation = rng.next() % 8;
            let inverse = match operation {
                0 => random_insert(&mut doc, &mut rng),
                1 => random_move(&mut doc, &mut rng),
                2 => random_remove(&mut doc, &mut rng),
                3 => random_label(&mut doc, &mut rng),
                4 => random_insert_point(&mut doc, &mut rng),
                5 => random_move_point(&mut doc, &mut rng),
                6 => random_remove_point(&mut doc, &mut rng),
                _ => random_reorder(&mut doc, &mut rng),
            };
            if let Some(inverse) = inverse {
                assert_eq!(doc.validate(), Vec::new());
                inverses.push(inverse);
            }
        }
        if restore {
            for inverse in inverses.iter().rev() {
                doc.apply_inverse(inverse).unwrap();
                assert_eq!(doc.validate(), Vec::new());
            }
            assert!(doc.same_content(&original));
        }
    }
}

#[test]
fn successful_random_mutation_sequences_keep_integrity() {
    run_random_sequences(false);
}

#[test]
fn successful_random_mutation_sequences_restore_by_inverse() {
    run_random_sequences(true);
}

fn random_insert(doc: &mut Annotation, rng: &mut Rng) -> Option<InverseMutation> {
    let tier = match rng.next() % 3 {
        0 => TierId(1),
        1 => TierId(2),
        _ => TierId(3),
    };
    let times = candidate_insert_times(doc, tier);
    if times.is_empty() {
        return None;
    }
    let at = times[(rng.next() as usize) % times.len()];
    doc.insert_boundary(tier, t(at))
        .ok()
        .map(BoundaryId::inverse_insert)
}

fn random_move(doc: &mut Annotation, rng: &mut Rng) -> Option<InverseMutation> {
    let boundaries = movable_boundaries(doc);
    if boundaries.is_empty() {
        return None;
    }
    let (boundary, left, right) = boundaries[(rng.next() as usize) % boundaries.len()];
    let numerator = 1 + (rng.next() % 8);
    let to = left + (right - left) * numerator as f64 / 9.0;
    doc.move_boundary(boundary, t(to), AlignMode::Linked)
        .ok()
        .map(|moved| moved.inverse())
}

fn random_remove(doc: &mut Annotation, rng: &mut Rng) -> Option<InverseMutation> {
    let boundaries: Vec<BoundaryId> = movable_boundaries(doc)
        .into_iter()
        .map(|(boundary, _, _)| boundary)
        .collect();
    if boundaries.is_empty() {
        return None;
    }
    let boundary = boundaries[(rng.next() as usize) % boundaries.len()];
    doc.remove_boundary(boundary)
        .ok()
        .map(|merged| merged.inverse())
}

fn random_label(doc: &mut Annotation, rng: &mut Rng) -> Option<InverseMutation> {
    let targets = label_targets(doc);
    if targets.is_empty() {
        return None;
    }
    let target = targets[(rng.next() as usize) % targets.len()];
    let text = format!("l{}", rng.next() % 17);
    doc.set_label(target, &text)
        .ok()
        .map(|change| change.inverse())
}

fn random_insert_point(doc: &mut Annotation, rng: &mut Rng) -> Option<InverseMutation> {
    let tiers = point_tiers(doc);
    if tiers.is_empty() {
        return None;
    }
    let (tier, times_now) = tiers[(rng.next() as usize) % tiers.len()].clone();
    let times = point_insert_times(doc, &times_now);
    if times.is_empty() {
        return None;
    }
    let at = times[(rng.next() as usize) % times.len()];
    let label = format!("p{}", rng.next() % 17);
    doc.insert_point(tier, t(at), &label)
        .ok()
        .map(|insertion| insertion.inverse())
}

fn random_move_point(doc: &mut Annotation, rng: &mut Rng) -> Option<InverseMutation> {
    let movable = movable_points(doc);
    if movable.is_empty() {
        return None;
    }
    let (point, lower, upper) = movable[(rng.next() as usize) % movable.len()];
    let numerator = 1 + (rng.next() % 8);
    let to = lower + (upper - lower) * numerator as f64 / 9.0;
    if to.to_bits() == lower.to_bits() || to.to_bits() == upper.to_bits() {
        return None;
    }
    doc.move_point(point, t(to)).ok().map(|moved| moved.inverse())
}

fn random_remove_point(doc: &mut Annotation, rng: &mut Rng) -> Option<InverseMutation> {
    let ids: Vec<PointId> = point_tiers(doc)
        .into_iter()
        .flat_map(|(_tier, points)| points.into_iter().map(|(id, _)| id))
        .collect();
    if ids.is_empty() {
        return None;
    }
    let id = ids[(rng.next() as usize) % ids.len()];
    doc.remove_point(id).ok().map(|removal| removal.inverse())
}

fn random_reorder(doc: &mut Annotation, rng: &mut Rng) -> Option<InverseMutation> {
    let count = doc.tiers().len();
    if count < 2 {
        return None;
    }
    let tier = doc.tiers()[(rng.next() as usize) % count].id;
    let to_index = (rng.next() as usize) % count;
    doc.reorder_tier(tier, to_index)
        .ok()
        .map(|reorder| reorder.inverse())
}

/// Each point tier with its points as (id, time).
fn point_tiers(doc: &Annotation) -> Vec<(TierId, Vec<(PointId, f64)>)> {
    doc.tiers()
        .iter()
        .filter_map(|slot| match &slot.tier {
            Tier::Point(tier) => Some((
                slot.id,
                tier.points.iter().map(|p| (p.id, f(p.time))).collect(),
            )),
            Tier::Interval(_) => None,
        })
        .collect()
}

fn point_insert_times(doc: &Annotation, points: &[(PointId, f64)]) -> Vec<f64> {
    let mut fence = vec![f(doc.xmin())];
    fence.extend(points.iter().map(|(_, time)| *time));
    fence.push(f(doc.xmax()));
    fence
        .windows(2)
        .filter_map(|pair| {
            let mid = (pair[0] + pair[1]) / 2.0;
            if mid.to_bits() != pair[0].to_bits() && mid.to_bits() != pair[1].to_bits() {
                Some(mid)
            } else {
                None
            }
        })
        .collect()
}

fn movable_points(doc: &Annotation) -> Vec<(PointId, f64, f64)> {
    let mut out = Vec::new();
    for (_tier, points) in point_tiers(doc) {
        for (index, (id, _time)) in points.iter().enumerate() {
            let lower = if index > 0 {
                points[index - 1].1
            } else {
                f(doc.xmin())
            };
            let upper = if index + 1 < points.len() {
                points[index + 1].1
            } else {
                f(doc.xmax())
            };
            if upper > lower {
                out.push((*id, lower, upper));
            }
        }
    }
    out
}

fn candidate_insert_times(doc: &Annotation, tier: TierId) -> Vec<f64> {
    let Some(slot) = doc.tier(tier) else {
        return Vec::new();
    };
    let Tier::Interval(tier) = &slot.tier else {
        return Vec::new();
    };
    tier.intervals
        .iter()
        .filter_map(|interval| {
            let (lo, hi) = (f(interval.xmin), f(interval.xmax));
            let midpoint = (lo + hi) / 2.0;
            if midpoint > lo && midpoint < hi {
                Some(midpoint)
            } else {
                None
            }
        })
        .collect()
}

fn movable_boundaries(doc: &Annotation) -> Vec<(BoundaryId, f64, f64)> {
    doc.tiers()
        .iter()
        .filter_map(|slot| match &slot.tier {
            Tier::Interval(tier) => Some(tier),
            Tier::Point(_) => None,
        })
        .flat_map(|tier| {
            tier.intervals
                .windows(2)
                .map(|pair| (pair[0].end_boundary, f(pair[0].xmin), f(pair[1].xmax)))
        })
        .collect()
}

fn label_targets(doc: &Annotation) -> Vec<LabelTarget> {
    let mut targets = Vec::new();
    for slot in doc.tiers() {
        match &slot.tier {
            Tier::Interval(tier) => {
                targets.extend(tier.intervals.iter().map(|interval| LabelTarget::Interval {
                    tier: slot.id,
                    interval: interval.id,
                }));
            }
            Tier::Point(tier) => {
                targets.extend(tier.points.iter().map(|point| LabelTarget::Point {
                    tier: slot.id,
                    point: point.id,
                }));
            }
        }
    }
    targets
}

#[test]
fn boundary_edits_are_undone_by_their_inverses() {
    let parent = TierSlot {
        id: TierId(1),
        relation: TierRelation::Independent,
        tier: Tier::Interval(IntervalTier {
            name: "parent".to_owned(),
            intervals: vec![interval(1, 1, 2, 0.0, 0.5), interval(2, 2, 3, 0.5, 1.0)],
        }),
    };
    let aligned = TierSlot {
        id: TierId(2),
        relation: TierRelation::AlignedBoundaries { with: TierId(1) },
        tier: Tier::Interval(IntervalTier {
            name: "aligned".to_owned(),
            intervals: vec![interval(3, 4, 5, 0.0, 0.5), interval(4, 5, 6, 0.5, 1.0)],
        }),
    };
    let original = Annotation::from_raw(t(0.0), t(1.0), vec![parent, aligned]);
    assert_eq!(original.validate(), Vec::new());
    let mut doc = original.duplicate();
    let b = doc.insert_boundary(TierId(1), t(0.25)).unwrap();
    // The insertion spreads to the aligned tier.
    for id in [1, 2] {
        let Tier::Interval(tier) = &doc.tier(TierId(id)).unwrap().tier else {
            panic!("interval tier")
        };
        assert_eq!(tier.intervals.len(), 3);
    }
    doc.apply_inverse(&b.inverse_insert()).unwrap();
    assert!(doc.same_content(&original));

    let moved = doc.move_boundary(BoundaryId(2), t(0.6), AlignMode::Linked).unwrap();
    assert_eq!(moved.moves.len(), 2);
    assert!(!doc.same_content(&original));
    doc.apply_inverse(&moved.inverse()).unwrap();
    assert!(doc.same_content(&original));

    let merged = doc.remove_boundary(BoundaryId(2)).unwrap();
    assert_eq!(merged.merges.len(), 2);
    doc.apply_inverse(&merged.inverse()).unwrap();
    assert!(doc.same_content(&original));
    assert_eq!(doc.validate(), Vec::new());
}

#[test]
fn single_tier_move_is_refused_on_an_aligned_boundary() {
    let mut doc = basic_document();
    let err = doc
        .move_boundary(BoundaryId(2), t(0.6), AlignMode::SingleTier)
        .unwrap_err();
    assert!(matches!(err, AnnotationError::AlignedBoundaryRequiresLinkedMode { .. }));
    assert!(doc.same_content(&basic_document()));
}

#[test]
fn restoring_a_removed_point_beside_its_signed_zero_twin_reorders_them() {
    // The one input on which removing a point and restoring it does not give
    // the document back: two points whose times are IEEE-equal.
    let points = vec![point(1, 0.0, "a"), point(2, -0.0, "b")];
    let mut doc = Annotation::from_raw(t(-1.0), t(1.0), vec![point_slot(1, "pts", points)]);
    assert_eq!(doc.validate(), Vec::new());
    let before = doc.duplicate();
    let removal = doc.remove_point(PointId(2)).unwrap();
    doc.apply_inverse(&removal.inverse()).unwrap();
    assert!(!doc.same_content(&before));
}

#[test]
fn a_label_holding_a_control_character_cannot_be_written_back() {
    let mut interval_one = interval(1, 1, 2, 0.0, 1.0);
    interval_one.label = "a\tb".to_string();
    let mut doc = Annotation::from_raw(
        t(0.0),
        t(1.0),
        vec![TierSlot {
            id: TierId(1),
            relation: TierRelation::Independent,
            tier: Tier::Interval(IntervalTier {
                name: "raw".to_owned(),
                intervals: vec![interval_one],
            }),
        }],
    );
    let target = first_interval_target(&doc, TierId(1));
    let change = doc.set_label(target, "clean").unwrap();
    assert!(matches!(
        doc.apply_inverse(&change.inverse()),
        Err(AnnotationError::InvalidLabelControl { codepoint: 9, index: 1 })
    ));
}

#[test]
fn validation_lists_every_issue_once_in_scan_order() {
    let doc = Annotation::from_raw(
        t(1.0),
        t(0.0),
        vec![empty_point_slot(1, "a"), empty_point_slot(1, "b")],
    );
    assert_eq!(
        doc.validate(),
        vec![
            IntegrityIssue::InvalidTimeDomain { xmin: t(1.0), xmax: t(0.0) },
            IntegrityIssue::DuplicateTierId { tier: TierId(1) },
        ]
    );
}

#[test]
fn validation_reports_the_exact_interval_gap() {
    let doc = raw_interval_doc(vec![(1, 1, 2, 0.0, 0.4), (2, 2, 3, 0.6, 1.0)]);
    assert_eq!(
        doc.validate(),
        vec![IntegrityIssue::IntervalGap {
            tier: TierId(1),
            left: IntervalId(1),
            right: IntervalId(2),
            gap_start: t(0.4),
            gap_end: t(0.6),
        }]
    );
}

#[test]
fn add_point_tier_succeeds_exactly_on_strictly_increasing_times() {
    let mut doc = Annotation::new(t(0.0), t(1.0)).unwrap();
    let unsorted = doc.add_point_tier(
        "unsorted",
        vec![(t(0.6), "a".to_owned()), (t(0.4), "b".to_owned())],
        TierRelation::Independent,
    );
    assert!(matches!(
        unsorted,
        Err(AnnotationError::IntegrityViolation(IntegrityIssue::PointUnsorted { .. }))
    ));
    let same_time = doc.add_point_tier(
        "same",
        vec![(t(0.4), "a".to_owned()), (t(0.4), "b".to_owned())],
        TierRelation::Independent,
    );
    assert!(matches!(
        same_time,
        Err(AnnotationError::IntegrityViolation(IntegrityIssue::DuplicatePointTime { .. }))
    ));
    assert!(doc.tiers().is_empty());
    let sorted = doc.add_point_tier(
        "sorted",
        vec![(t(0.4), "a".to_owned()), (t(0.6), "b".to_owned())],
        TierRelation::Independent,
    );
    assert!(sorted.is_ok());
    assert_eq!(doc.tiers().len(), 1);
    assert!(doc.validate().is_empty());
}

#[test]
fn document_words_list_the_document_in_scan_order() {
    let doc = Annotation::from_raw(
        t(0.0),
        t(1.0),
        vec![point_slot(3, "ab", vec![point(5, 0.5, "c")])],
    );
    let words = phonia::fingerprint::document_words(&doc);
    assert_eq!(words[0], t(0.0).key as u64);
    assert_eq!(words[1], t(1.0).key as u64);
    assert_eq!(
        words[2..].to_vec(),
        vec![
            1, 3, 0, 0, 1, 2, 'a' as u64, 'b' as u64, 1, 5,
            t(0.5).key as u64, 1, 'c' as u64
        ]
    );
}
