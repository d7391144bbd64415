use reslicer::supports::pillars::{plan_pillar_supports, PillarPick, PillarSample, RegionSamples};

fn sample(x: i32, y: i32, usable: bool) -> PillarSample {
    PillarSample { key: (x, y), usable }
}

#[test]
fn usable_samples_become_pillars() {
    let regions = [RegionSamples {
        samples: vec![sample(1500, 1000, true), sample(4500, 1000, false), sample(7500, 1000, true)],
        centroid_usable: true,
    }];
    assert_eq!(
        plan_pillar_supports(&regions),
        vec![
            PillarPick::Sample { region: 0, sample: 0 },
            PillarPick::Sample { region: 0, sample: 2 },
        ]
    );
}

#[test]
fn shared_grid_key_carries_one_pillar() {
    let regions = [
        RegionSamples { samples: vec![sample(0, 0, true), sample(0, 0, true)], centroid_usable: false },
        RegionSamples { samples: vec![sample(0, 0, true)], centroid_usable: true },
    ];
    assert_eq!(
        plan_pillar_supports(&regions),
        vec![PillarPick::Sample { region: 0, sample: 0 }, PillarPick::Centroid { region: 1 }]
    );
}

#[test]
fn region_without_usable_sample_falls_back_to_centroid() {
    let regions = [
        RegionSamples { samples: vec![sample(5, 5, false)], centroid_usable: true },
        RegionSamples { samples: vec![], centroid_usable: false },
    ];
    assert_eq!(plan_pillar_supports(&regions), vec![PillarPick::Centroid { region: 0 }]);
}

#[test]
fn low_regions_get_no_pillars() {
    let regions = [RegionSamples { samples: vec![sample(1, 2, false)], centroid_usable: false }];
    assert!(plan_pillar_supports(&regions).is_empty());
}
