use packbed::cluster::{cluster, comparison_intervals, exonic_overlap, OverlapType};
use packbed::pack::{buckerize, colorize, components, rgb, RGB_SIZE};
use packbed::record::{Bed12, GenePred};
use packbed::tracks::parse_tracks;

fn tx(chrom: &str, name: &str, start: u64, end: u64, blocks: &[(u64, u64)]) -> GenePred {
    let sizes: Vec<String> = blocks.iter().map(|b| (b.1 - b.0).to_string()).collect();
    let starts: Vec<String> = blocks.iter().map(|b| (b.0 - start).to_string()).collect();
    let l = [
        chrom.to_string(),
        start.to_string(),
        end.to_string(),
        name.to_string(),
        "0".to_string(),
        "+".to_string(),
        start.to_string(),
        end.to_string(),
        "0".to_string(),
        blocks.len().to_string(),
        sizes.join(","),
        starts.join(","),
    ]
    .join("\t");
    Bed12::parse(&l, false).unwrap()
}

fn sizes(comps: &Vec<Vec<usize>>) -> Vec<usize> {
    let mut s: Vec<usize> = comps.iter().map(|c| c.len()).collect();
    s.sort();
    s
}

#[test]
fn test_exonic_overlap_true() {
    let r = vec![(10, 20), (30, 40), (50, 60)];
    let q = vec![(15, 25), (41, 49), (90, 110)];

    let res = exonic_overlap(&r, &q);

    assert_eq!(res, true);
}

#[test]
fn test_exonic_overlap_false() {
    let r = vec![(10, 20), (30, 40), (50, 60)];
    let q = vec![(21, 25), (41, 49), (90, 110)];

    let res = exonic_overlap(&r, &q);

    assert_eq!(res, false);
}

#[test]
fn exonic_overlap_touching_is_no_overlap() {
    assert!(!exonic_overlap(&vec![(10, 20)], &vec![(20, 30)]));
    assert!(exonic_overlap(&vec![(10, 21)], &vec![(20, 30)]));
    assert!(!exonic_overlap(&vec![], &vec![(20, 30)]));
}

#[test]
fn boundary_policy_joins_overlapping_windows() {
    let ts = vec![
        tx("chr1", "a", 100, 200, &[(100, 120)]),
        tx("chr1", "b", 150, 250, &[(230, 250)]),
    ];
    let comps = cluster(&ts, OverlapType::Boundary);
    assert_eq!(comps.len(), 1);
    assert_eq!(comps[0].len(), 2);
}

#[test]
fn exon_policy_separates_disjoint_exons() {
    let ts = vec![
        tx("chr1", "a", 100, 200, &[(100, 120)]),
        tx("chr1", "b", 150, 250, &[(230, 250)]),
    ];
    let comps = cluster(&ts, OverlapType::Exon);
    assert_eq!(sizes(&comps), vec![1, 1]);
}

#[test]
fn exon_overlap_is_transitive() {
    let ts = vec![
        tx("chr1", "a", 100, 200, &[(100, 120), (180, 200)]),
        tx("chr1", "b", 110, 320, &[(110, 130), (300, 320)]),
        tx("chr1", "c", 310, 330, &[(310, 330)]),
    ];
    let comps = cluster(&ts, OverlapType::Exon);
    assert_eq!(comps.len(), 1);
    assert_eq!(comps[0].len(), 3);
}

#[test]
fn cds_policy_compares_clipped_exons() {
    let mk = |name: &str, start: u64, end: u64, cs: u64, ce: u64, blocks: &str, offs: &str| {
        let l = format!(
            "chr1\t{}\t{}\t{}\t0\t+\t{}\t{}\t0\t2\t{}\t{}",
            start, end, name, cs, ce, blocks, offs
        );
        Bed12::parse(&l, false).unwrap()
    };
    // the exons touch only in untranslated parts
    let a = mk("a", 100, 200, 100, 150, "50,10", "0,90");
    let b = mk("b", 180, 300, 250, 300, "20,50", "0,70");
    let ts = vec![a, b];
    assert_eq!(sizes(&cluster(&ts, OverlapType::Exon)), vec![2]);
    assert_eq!(sizes(&cluster(&ts, OverlapType::Cds)), vec![1, 1]);
    assert_eq!(comparison_intervals(&ts[0], OverlapType::Cds), vec![(100, 150)]);
    assert_eq!(comparison_intervals(&ts[1], OverlapType::Boundary), vec![(180, 300)]);
}

#[test]
fn every_transcript_lands_in_one_component() {
    let ts = vec![
        tx("chr1", "a", 0, 10, &[(0, 10)]),
        tx("chr1", "b", 5, 15, &[(5, 15)]),
        tx("chr1", "c", 20, 30, &[(20, 30)]),
        tx("chr1", "d", 40, 50, &[(40, 50)]),
        tx("chr1", "e", 29, 41, &[(29, 41)]),
        tx("chr1", "f", 100, 110, &[(100, 110)]),
    ];
    let comps = cluster(&ts, OverlapType::Exon);
    let mut seen: Vec<usize> = comps.iter().flatten().copied().collect();
    seen.sort();
    assert_eq!(seen, vec![0, 1, 2, 3, 4, 5]);
    assert_eq!(sizes(&comps), vec![1, 2, 3]);
}

#[test]
fn reclustering_a_component_keeps_it_whole() {
    let ts = vec![
        tx("chr1", "a", 100, 200, &[(100, 120), (180, 200)]),
        tx("chr1", "b", 110, 320, &[(110, 130), (300, 320)]),
        tx("chr1", "c", 310, 330, &[(310, 330)]),
        tx("chr1", "d", 400, 500, &[(400, 500)]),
    ];
    let comps = components(&ts, OverlapType::Exon);
    assert_eq!(comps.len(), 2);
    for comp in &comps {
        let again = components(comp, OverlapType::Exon);
        assert_eq!(again.len(), 1);
        assert_eq!(again[0].len(), comp.len());
    }
}

#[test]
fn empty_input_has_no_components() {
    let ts: Vec<GenePred> = Vec::new();
    assert!(cluster(&ts, OverlapType::Boundary).is_empty());
}

#[test]
fn palette_and_colorize() {
    assert_eq!(RGB_SIZE, 10);
    assert_eq!(rgb(0), "255,0,0");
    assert_eq!(rgb(9), "172,126,0");
    let ts = vec![
        tx("chr1", "a", 100, 200, &[(100, 200)]),
        tx("chr1", "b", 300, 400, &[(300, 400)]),
    ];
    let comps = components(&ts, OverlapType::Boundary);
    let colored = colorize(&comps, &vec![2, 7]);
    assert_eq!(colored.len(), 2);
    let fields0: Vec<&str> = colored[0][0].line().split('\t').collect();
    let fields1: Vec<&str> = colored[1][0].line().split('\t').collect();
    assert_eq!(fields0[8], "0,0,255");
    assert_eq!(fields1[8], "51,153,255");
}

#[test]
fn malformed_lines_are_dropped() {
    let contents = "chr1\t100\t200\ta\t0\t+\t100\t200\t0\t1\t100,\t0,\n\
                    chr1\t150\t250\tbad\t0\t+\t150\n\
                    chr1\t150\t250\tb\t0\t+\t150\t250\t0\t1\t100,\t0,\n";
    let tracks = parse_tracks(contents, false);
    assert_eq!(tracks.dropped, 1);
    assert_eq!(tracks.chroms, vec!["chr1".to_string()]);
    let packed = buckerize(&tracks, OverlapType::Boundary);
    assert_eq!(packed.len(), 1);
    assert_eq!(packed[0].len(), 1);
    assert_eq!(packed[0][0].len(), 2);
    assert!(packed[0][0].iter().all(|t| t.name != "bad"));
}

#[test]
fn tracks_group_by_chromosome_in_order() {
    let contents = "# a comment\r\n\
                    chr2\t300\t400\tc\t0\t+\t300\t400\t0\t1\t100,\t0,\r\n\
                    chr1\t150\t250\tb\t0\t+\t150\t250\t0\t1\t100,\t0,\n\
                    \n\
                    chr1\t100\t200\ta\t0\t+\t100\t200\t0\t1\t100,\t0,";
    let tracks = parse_tracks(contents, false);
    assert_eq!(tracks.dropped, 1);
    assert_eq!(tracks.chroms.len(), 2);
    let i1 = tracks.chroms.iter().position(|c| c == "chr1").unwrap();
    let i2 = tracks.chroms.iter().position(|c| c == "chr2").unwrap();
    let names1: Vec<&str> = tracks.groups[i1].iter().map(|t| t.name.as_str()).collect();
    assert_eq!(names1, vec!["a", "b"]);
    assert_eq!(tracks.groups[i2].len(), 1);
    assert_eq!(tracks.groups[i2][0].line(), "chr2\t300\t400\tc\t0\t+\t300\t400\t0\t1\t100,\t0,");
}

#[test]
fn test_packbed_with_simple_bed() {
    let contents = "s8\t100\t200\tread1\t0\t-\t110\t190\t0\t3\t20,20,20,\t0,30,60,\ns8\t100\t200\tread2\t0\t+\t110\t190\t0\t3\t20,20,20,\t0,30,60,";
    let tracks = parse_tracks(contents, false);
    let res = buckerize(&tracks, OverlapType::Boundary);

    assert_eq!(res.len(), 1);
}

#[test]
fn different_components_never_overlap() {
    let mut ts = Vec::new();
    let mut seed: u64 = 7;
    for i in 0..40u64 {
        seed = seed.wrapping_mul(6364136223846793005).wrapping_add(1442695040888963407);
        let start = (seed >> 33) % 2000;
        let len = 20 + (seed >> 20) % 60;
        let gap = 5 + (seed >> 10) % 30;
        let blocks = [(start, start + len), (start + len + gap, start + 2 * len + gap)];
        ts.push(tx("chr1", &format!("t{}", i), start, start + 2 * len + gap, &blocks));
    }
    let comps = cluster(&ts, OverlapType::Exon);
    let mut seen: Vec<usize> = comps.iter().flatten().copied().collect();
    seen.sort();
    assert_eq!(seen, (0..40).collect::<Vec<usize>>());
    for (a, ca) in comps.iter().enumerate() {
        for (b, cb) in comps.iter().enumerate() {
            if a == b {
                continue;
            }
            for &x in ca {
                for &y in cb {
                    assert!(!exonic_overlap(&ts[x].exons, &ts[y].exons));
                }
            }
        }
    }
}

#[test]
fn zero_length_intervals_inside_others_are_joined() {
    let outer = tx("chr1", "outer", 100, 200, &[(100, 200)]);
    let point = Bed12::parse("chr1\t150\t150\tpoint\t0\t+\t150\t150\t0\t1\t0,\t0,", false).unwrap();
    let ts = vec![outer, point];
    assert_eq!(sizes(&cluster(&ts, OverlapType::Boundary)), vec![2]);
    assert_eq!(sizes(&cluster(&ts, OverlapType::Exon)), vec![2]);
    let edge = Bed12::parse("chr1\t100\t100\tedge\t0\t+\t100\t100\t0\t1\t0,\t0,", false).unwrap();
    let ts2 = vec![tx("chr1", "outer", 100, 200, &[(100, 200)]), edge];
    assert_eq!(sizes(&cluster(&ts2, OverlapType::Boundary)), vec![1, 1]);
}

#[test]
fn tracks_hold_the_parse_of_every_record_line() {
    let lines = [
        "chr1\t100\t200\ta\t0\t+\t110\t190\t0\t2\t20,20,\t0,80,",
        "chr1\t150\t250\tb\t0\t-\t150\t250\t0\t1\t100,\t0,",
        "chr2\t10\t20\tc\t0\t+\t10\t20\t0\t1\t10,\t0,",
        "chr1\t150\t250\tb\t0\t-\t150\t250\t0\t1\t100,\t0,",
    ];
    let tracks = parse_tracks(&lines.join("\n"), false);
    let total: usize = tracks.groups.iter().map(|g| g.len()).sum();
    assert_eq!(total, 4);
    for l in lines {
        let p = Bed12::parse(l, false).unwrap();
        let i = tracks.chroms.iter().position(|c| *c == p.chrom).unwrap();
        assert!(tracks.groups[i]
            .iter()
            .any(|t| t.line == p.line && t.exons == p.exons && t.start == p.start && t.end == p.end));
    }
}
