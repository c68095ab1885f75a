use packbed::record::{abs_pos, gapper, get_coords, Bed12, ParseError, SCALE};

fn line(fields: &[&str]) -> String {
    fields.join("\t")
}

#[test]
fn test_bed12_abs_pos_plus() {
    let (tx_start, tx_end, cds_start, cds_end) = abs_pos("10", "20", "10", "20", '+').unwrap();

    assert_eq!(tx_start, 10);
    assert_eq!(tx_end, 20);
    assert_eq!(cds_start, 10);
    assert_eq!(cds_end, 20);
}

#[test]
fn test_bed12_abs_pos_minus() {
    let (tx_start, tx_end, cds_start, cds_end) = abs_pos("10", "20", "10", "20", '-').unwrap();

    assert_eq!(tx_start, SCALE - 20);
    assert_eq!(tx_end, SCALE - 10);
    assert_eq!(cds_start, SCALE - 20);
    assert_eq!(cds_end, SCALE - 10);
}

#[test]
fn test_bed12_get_coords_and_gapper_plus() {
    let (exons, introns) = get_coords("0,30", "10,10", 10, 50, 15, 45, '+', true).unwrap();

    assert_eq!(exons, vec![(15, 20), (40, 45)]);
    // introns are the half-open gaps between consecutive exons
    assert_eq!(introns, vec![(20, 40)]);
}

#[test]
fn test_bed12_get_coords_and_gapper_minus() {
    let (tx_start, tx_end, cds_start, cds_end) = abs_pos("10", "100", "30", "80", '-').unwrap();

    // the first and last blocks lie wholly outside the coding window
    let res = get_coords(
        "0,20,40,60,80",
        "10,10,10,10,10",
        tx_start,
        tx_end,
        cds_start,
        cds_end,
        '-',
        true,
    );
    assert_eq!(res, Err(ParseError::ExonOutsideCds));

    let (exons, introns) = get_coords(
        "20,40,60",
        "10,10,10",
        tx_start,
        tx_end,
        cds_start,
        cds_end,
        '-',
        true,
    )
    .unwrap();
    assert_eq!(
        exons,
        vec![
            (99999999920, 99999999930),
            (99999999940, 99999999950),
            (99999999960, 99999999970)
        ]
    );
    assert_eq!(
        introns,
        vec![(99999999930, 99999999940), (99999999950, 99999999960)]
    );
}

#[test]
fn test_bed12_get_coords_and_gapper_plus_nested_utr() {
    let (exons, introns) =
        get_coords("0,20,40,60,80", "10,10,10,10,10", 10, 100, 15, 95, '+', true).unwrap();

    assert_eq!(exons, vec![(15, 20), (30, 40), (50, 60), (70, 80), (90, 95)]);
    assert_eq!(introns, vec![(20, 30), (40, 50), (60, 70), (80, 90)]);
}

#[test]
fn test_bed12_get_coords_and_gapper_minus_nested_utr() {
    let (tx_start, tx_end, cds_start, cds_end) = abs_pos("10", "80", "15", "75", '-').unwrap();

    let (exons, introns) = get_coords(
        "0,20,40,60",
        "10,10,10,10",
        tx_start,
        tx_end,
        cds_start,
        cds_end,
        '-',
        true,
    )
    .unwrap();

    assert_eq!(
        exons,
        vec![
            (99999999925, 99999999930),
            (99999999940, 99999999950),
            (99999999960, 99999999970),
            (99999999980, 99999999985)
        ]
    );
    assert_eq!(
        introns,
        vec![
            (99999999930, 99999999940),
            (99999999950, 99999999960),
            (99999999970, 99999999980)
        ]
    );
}

#[test]
fn get_coords_without_cds_keeps_whole_blocks() {
    let (exons, introns) = get_coords("0,30", "10,10", 10, 50, 15, 45, '+', false).unwrap();
    assert_eq!(exons, vec![(10, 20), (40, 50)]);
    assert_eq!(introns, vec![(20, 40)]);
}

#[test]
fn get_coords_collapses_identical_blocks() {
    let (exons, _) = get_coords("0,0,30", "10,10,10", 10, 50, 10, 50, '+', false).unwrap();
    assert_eq!(exons, vec![(10, 20), (40, 50)]);
}

#[test]
fn get_coords_sorts_blocks() {
    let (exons, introns) = get_coords("30,0", "10,10", 10, 50, 10, 50, '+', false).unwrap();
    assert_eq!(exons, vec![(10, 20), (40, 50)]);
    assert_eq!(introns, vec![(20, 40)]);
}

#[test]
fn gapper_skips_touching_exons() {
    let g = gapper(&vec![(10, 20), (20, 30), (35, 40)]);
    assert_eq!(g, vec![(30, 35)]);
    assert_eq!(gapper(&vec![]), vec![]);
    assert_eq!(gapper(&vec![(1, 2)]), vec![]);
}

#[test]
fn abs_pos_rejects_bad_input() {
    assert_eq!(abs_pos("10", "20", "10", "20", '.'), Err(ParseError::InvalidStrand));
    assert_eq!(abs_pos("1x", "20", "10", "20", '+'), Err(ParseError::InvalidNumber));
    assert_eq!(abs_pos("", "20", "10", "20", '+'), Err(ParseError::InvalidNumber));
    assert_eq!(
        abs_pos("10", "100000000001", "10", "20", '-'),
        Err(ParseError::CoordinateOutOfRange)
    );
    assert_eq!(
        abs_pos("+10", "18446744073709551615", "10", "20", '+'),
        Ok((10, 18446744073709551615, 10, 20))
    );
    assert_eq!(
        abs_pos("10", "18446744073709551616", "10", "20", '+'),
        Err(ParseError::InvalidNumber)
    );
}

#[test]
fn reverse_transform_round_trips() {
    let (s, e, cs, ce) = abs_pos("10", "100", "30", "80", '-').unwrap();
    let back = abs_pos(
        &s.to_string(),
        &e.to_string(),
        &cs.to_string(),
        &ce.to_string(),
        '-',
    )
    .unwrap();
    assert_eq!(back, (10, 100, 30, 80));
}

#[test]
fn parse_reads_a_forward_record() {
    let l = line(&[
        "chr1", "100", "200", "tx1", "0", "+", "110", "190", "0", "3", "20,20,20,", "0,30,60,",
    ]);
    let g = Bed12::parse(&l, false).unwrap();
    assert_eq!(g.chrom, "chr1");
    assert_eq!(g.name(), "tx1");
    assert_eq!(g.strand, '+');
    assert_eq!((g.start, g.end, g.cds_start, g.cds_end), (100, 200, 110, 190));
    assert_eq!(g.exons, vec![(100, 120), (130, 150), (160, 180)]);
    assert_eq!(g.introns, vec![(120, 130), (150, 160)]);
    assert_eq!(g.exon_count, 3);
    assert_eq!(g.line(), &l);
}

#[test]
fn parse_reads_a_reverse_record() {
    let l = line(&[
        "s8", "100", "200", "read1", "0", "-", "110", "190", "0", "3", "20,20,20,", "0,30,60,",
    ]);
    let g = Bed12::parse(&l, false).unwrap();
    assert_eq!((g.start, g.end), (SCALE - 200, SCALE - 100));
    assert_eq!((g.cds_start, g.cds_end), (SCALE - 190, SCALE - 110));
    assert_eq!(
        g.exons,
        vec![
            (SCALE - 180, SCALE - 160),
            (SCALE - 150, SCALE - 130),
            (SCALE - 120, SCALE - 100)
        ]
    );
    assert_eq!(
        g.introns,
        vec![(SCALE - 160, SCALE - 150), (SCALE - 130, SCALE - 120)]
    );
}

#[test]
fn parse_clips_exons_under_cds() {
    let l = line(&[
        "chr1", "100", "200", "tx1", "0", "+", "110", "190", "0", "3", "20,20,20,", "0,30,60,",
    ]);
    let g = Bed12::parse(&l, true).unwrap();
    assert_eq!(g.exons, vec![(110, 120), (130, 150), (160, 180)]);
}

#[test]
fn parse_reports_each_error() {
    let base = [
        "chr1", "100", "200", "tx1", "0", "+", "110", "190", "0", "2", "20,20,", "0,30,",
    ];
    assert_eq!(Bed12::parse("", false).unwrap_err(), ParseError::EmptyLine);
    assert_eq!(
        Bed12::parse("chr1\t1\t2\tx\t0\t+\t1", false).unwrap_err(),
        ParseError::MissingField
    );

    let mut f = base;
    f[5] = ".";
    assert_eq!(Bed12::parse(&line(&f), false).unwrap_err(), ParseError::InvalidStrand);
    f[5] = "";
    assert_eq!(Bed12::parse(&line(&f), false).unwrap_err(), ParseError::InvalidStrand);

    let mut f = base;
    f[1] = "abc";
    assert_eq!(Bed12::parse(&line(&f), false).unwrap_err(), ParseError::InvalidNumber);

    let mut f = base;
    f[5] = "-";
    f[2] = "100000000001";
    assert_eq!(
        Bed12::parse(&line(&f), false).unwrap_err(),
        ParseError::CoordinateOutOfRange
    );

    let mut f = base;
    f[6] = "90";
    assert_eq!(Bed12::parse(&line(&f), false).unwrap_err(), ParseError::UnorderedBounds);

    let mut f = base;
    f[10] = "20,20,20,";
    assert_eq!(
        Bed12::parse(&line(&f), false).unwrap_err(),
        ParseError::BlockCountMismatch
    );

    let mut f = base;
    f[11] = "0,x,";
    assert_eq!(Bed12::parse(&line(&f), false).unwrap_err(), ParseError::InvalidNumber);

    let mut f = base;
    f[6] = "150";
    f[7] = "160";
    assert_eq!(Bed12::parse(&line(&f), true).unwrap_err(), ParseError::ExonOutsideCds);

    let mut f = base;
    f[11] = "0,10,";
    assert_eq!(
        Bed12::parse(&line(&f), false).unwrap_err(),
        ParseError::OverlappingExons
    );
    assert_eq!(ParseError::OverlappingExons.message(), "Exon blocks overlap");
}

#[test]
fn parse_keeps_transcript_invariant() {
    let l = line(&[
        "chr2", "0", "1000", "t", "0", "-", "100", "900", "0", "4", "10,200,10,5", "0,300,100,990",
    ]);
    let g = Bed12::parse(&l, false).unwrap();
    assert!(g.start <= g.cds_start && g.cds_start <= g.cds_end && g.cds_end <= g.end);
    for w in g.exons.windows(2) {
        assert!(w[0].1 <= w[1].0);
    }
    let gaps: Vec<(u64, u64)> = g
        .exons
        .windows(2)
        .filter(|w| w[0].1 < w[1].0)
        .map(|w| (w[0].1, w[1].0))
        .collect();
    assert_eq!(g.introns, gaps);
    assert_eq!(g.exon_count, g.exons.len());
}

#[test]
fn colorline_rewrites_the_rgb_field() {
    let l = line(&[
        "chr1", "100", "200", "tx1", "0", "+", "110", "190", "0", "1", "100,", "0,",
    ]);
    let g = Bed12::parse(&l, false).unwrap();
    let c = g.clone().colorline("255,0,0");
    assert_eq!(
        c.line(),
        &line(&[
            "chr1", "100", "200", "tx1", "0", "+", "110", "190", "255,0,0", "1", "100,", "0,",
        ])
    );
    assert_eq!(c.exons, g.exons);
    assert_eq!(c.name, g.name);
}

#[test]
fn parse_rejects_a_strand_longer_than_one_character() {
    for s in ["+x", "-1", "++"] {
        let l = line(&[
            "chr1", "100", "200", "a", "0", s, "100", "200", "0", "1", "100,", "0,",
        ]);
        assert_eq!(Bed12::parse(&l, false).unwrap_err(), ParseError::InvalidStrand);
    }
}
