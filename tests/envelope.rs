use std::collections::HashMap;

use packbed::cluster::OverlapType;
use packbed::pack::buckerize;
use packbed::record::GenePred;
use packbed::tracks::parse_tracks;

type Row = (
    String,
    String,
    char,
    u64,
    u64,
    u64,
    u64,
    Vec<(u64, u64)>,
    Vec<(u64, u64)>,
    usize,
    String,
);

fn row(t: &GenePred) -> Row {
    (
        t.name.clone(),
        t.chrom.clone(),
        t.strand,
        t.start,
        t.end,
        t.cds_start,
        t.cds_end,
        t.exons.clone(),
        t.introns.clone(),
        t.exon_count,
        t.line.clone(),
    )
}

#[test]
fn binary_envelope_round_trip() {
    let contents = "chr1\t100\t200\ta\t0\t+\t110\t190\t0\t2\t20,20,\t0,80,\n\
                    chr1\t150\t250\tb\t0\t-\t150\t250\t0\t1\t100,\t0,\n\
                    chr2\t10\t20\tc\t0\t+\t10\t20\t0\t1\t10,\t0,\n";
    let tracks = parse_tracks(contents, false);
    let packed = buckerize(&tracks, OverlapType::Exon);
    let mut map: HashMap<String, Vec<Vec<Row>>> = HashMap::new();
    for (chrom, comps) in tracks.chroms.iter().zip(packed.iter()) {
        let rows = comps.iter().map(|c| c.iter().map(row).collect()).collect();
        map.insert(chrom.clone(), rows);
    }
    let bytes = rmp_serde::to_vec(&map).unwrap();
    let back: HashMap<String, Vec<Vec<Row>>> = rmp_serde::from_slice(&bytes).unwrap();
    assert_eq!(back, map);
    assert_eq!(back.len(), 2);
}
