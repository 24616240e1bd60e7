use read_layers::error::IngestError;
use read_layers::locator::{
    check_names, discover_by_folder, discover_from_list, discover_single, file_stem, folder_order,
    layer_pattern, z_order, Candidate,
};
use read_layers::number::{finite, key};
use read_layers::order::compare_keys;
use std::cmp::Ordering;

fn candidate(path: &str) -> Candidate {
    let stem = file_stem(path);
    Candidate { path: path.to_string(), z: stem.parse::<f64>().ok().map(f64::to_bits) }
}

#[test]
fn pattern_appends_the_layer_suffix() {
    assert_eq!(layer_pattern("scans/run7"), "scans/run7/*.pcd");
    assert_eq!(layer_pattern(""), "/*.pcd");
}

#[test]
fn stem_is_the_file_name_without_its_extension() {
    assert_eq!(file_stem("scans/5.0.pcd"), "5.0");
    assert_eq!(file_stem("12.pcd"), "12");
    assert_eq!(file_stem("/data/run.7/-0.25.pcd"), "-0.25");
    assert_eq!(file_stem("archive.tar.gz"), "archive.tar");
}

#[test]
fn stem_of_a_name_without_extension_is_the_name() {
    assert_eq!(file_stem("scans/layer"), "layer");
    assert_eq!(file_stem(".hidden"), ".hidden");
    assert_eq!(file_stem("a.b/c"), "c");
    assert_eq!(file_stem(""), "");
    assert_eq!(file_stem("scans/"), "");
}

#[test]
fn stem_counts_characters_not_bytes() {
    assert_eq!(file_stem("schräg/höhe.pcd"), "höhe");
}

#[test]
fn finite_tells_numbers_from_infinities_and_nans() {
    assert!(finite(0.0f64.to_bits()));
    assert!(finite((-0.0f64).to_bits()));
    assert!(finite(f64::MAX.to_bits()));
    assert!(finite(f64::MIN.to_bits()));
    assert!(finite(f64::MIN_POSITIVE.to_bits()));
    assert!(!finite(f64::INFINITY.to_bits()));
    assert!(!finite(f64::NEG_INFINITY.to_bits()));
    assert!(!finite(f64::NAN.to_bits()));
    assert!(!finite((-f64::NAN).to_bits()));
}

#[test]
fn key_of_given_numbers() {
    assert_eq!(key(0.0f64.to_bits()), 0);
    assert_eq!(key((-0.0f64).to_bits()), 0);
    assert_eq!(key(1.0f64.to_bits()), 0x3FF0_0000_0000_0000);
    assert_eq!(key((-1.0f64).to_bits()), -0x3FF0_0000_0000_0000);
    assert_eq!(key(u64::MAX), -i64::MAX);
}

#[test]
fn key_orders_as_the_numbers_do() {
    let samples = [
        f64::NEG_INFINITY,
        f64::MIN,
        -1.0e10,
        -2.5,
        -1.0,
        -f64::MIN_POSITIVE,
        -0.0,
        0.0,
        f64::MIN_POSITIVE,
        0.5,
        1.0,
        5.0,
        5.000000000000001,
        1.0e300,
        f64::MAX,
        f64::INFINITY,
    ];
    for a in samples {
        for b in samples {
            let by_key = key(a.to_bits()).cmp(&key(b.to_bits()));
            assert_eq!(Some(by_key), a.partial_cmp(&b));
        }
    }
}

#[test]
fn compare_keys_gives_the_three_orderings() {
    assert_eq!(compare_keys(-3, 2), Ordering::Less);
    assert_eq!(compare_keys(2, 2), Ordering::Equal);
    assert_eq!(compare_keys(7, 2), Ordering::Greater);
    assert_eq!(compare_keys(i64::MIN, i64::MAX), Ordering::Less);
}

#[test]
fn single_path_is_wrapped_with_its_z() {
    let file = discover_single(&candidate("scans/5.0.pcd")).unwrap();
    assert_eq!(file.path, "scans/5.0.pcd");
    assert_eq!(f64::from_bits(file.z), 5.0);
}

#[test]
fn non_numeric_stem_is_a_malformed_name() {
    let r = discover_single(&candidate("scans/top.pcd"));
    assert_eq!(r.err(), Some(IngestError::MalformedName));
}

#[test]
fn stem_that_is_not_finite_is_a_malformed_name() {
    for path in ["inf.pcd", "-inf.pcd", "NaN.pcd", "infinity.pcd"] {
        let c = candidate(path);
        assert!(c.z.is_some());
        assert_eq!(discover_single(&c).err(), Some(IngestError::MalformedName));
    }
}

#[test]
fn check_names_unwraps_valid_names() {
    let names = vec![Some(2.0f64.to_bits()), Some((-1.5f64).to_bits())];
    assert_eq!(check_names(&names), Ok(vec![2.0f64.to_bits(), (-1.5f64).to_bits()]));
    assert_eq!(check_names(&vec![]), Ok(vec![]));
    let bad = vec![Some(2.0f64.to_bits()), None];
    assert_eq!(check_names(&bad), Err(IngestError::MalformedName));
}

#[test]
fn list_discovery_keeps_the_order_of_the_list() {
    let list = vec![candidate("b/3.5.pcd"), candidate("a/1.pcd"), candidate("c/2.25.pcd")];
    let files = discover_from_list(&list).unwrap();
    let paths: Vec<&str> = files.iter().map(|f| f.path.as_str()).collect();
    assert_eq!(paths, vec!["b/3.5.pcd", "a/1.pcd", "c/2.25.pcd"]);
    let zs: Vec<f64> = files.iter().map(|f| f64::from_bits(f.z)).collect();
    assert_eq!(zs, vec![3.5, 1.0, 2.25]);
}

#[test]
fn list_discovery_of_nothing_is_nothing() {
    assert_eq!(discover_from_list(&vec![]).unwrap().len(), 0);
}

#[test]
fn list_discovery_rejects_a_malformed_name() {
    let list = vec![candidate("1.pcd"), candidate("second.pcd")];
    assert_eq!(discover_from_list(&list).err(), Some(IngestError::MalformedName));
}

#[test]
fn folder_discovery_sorts_by_z() {
    let found = vec![
        candidate("s/10.pcd"),
        candidate("s/2.pcd"),
        candidate("s/-3.5.pcd"),
        candidate("s/0.pcd"),
        candidate("s/1e2.pcd"),
    ];
    let files = discover_by_folder(&found).unwrap();
    let paths: Vec<&str> = files.iter().map(|f| f.path.as_str()).collect();
    assert_eq!(paths, vec!["s/-3.5.pcd", "s/0.pcd", "s/2.pcd", "s/10.pcd", "s/1e2.pcd"]);
    let zs: Vec<f64> = files.iter().map(|f| f64::from_bits(f.z)).collect();
    assert_eq!(zs, vec![-3.5, 0.0, 2.0, 10.0, 100.0]);
}

#[test]
fn folder_discovery_keeps_files_of_equal_z() {
    let found = vec![candidate("s/1.0.pcd"), candidate("s/0.5.pcd"), candidate("s/1.pcd")];
    let files = discover_by_folder(&found).unwrap();
    assert_eq!(files.len(), 3);
    assert_eq!(files[0].path, "s/0.5.pcd");
    let mut rest: Vec<&str> = files[1..].iter().map(|f| f.path.as_str()).collect();
    rest.sort();
    assert_eq!(rest, vec!["s/1.0.pcd", "s/1.pcd"]);
}

#[test]
fn folder_without_matches_is_not_found() {
    assert_eq!(discover_by_folder(&vec![]).err(), Some(IngestError::NotFound));
    assert_eq!(folder_order(&vec![]), Err(IngestError::NotFound));
}

#[test]
fn folder_discovery_rejects_a_malformed_name() {
    let found = vec![candidate("s/1.pcd"), candidate("s/readme.pcd")];
    assert_eq!(discover_by_folder(&found).err(), Some(IngestError::MalformedName));
    assert_eq!(folder_order(&vec![Some(1.0f64.to_bits()), None]), Err(IngestError::MalformedName));
}

#[test]
fn z_order_lists_every_position_once_in_order() {
    let zs: Vec<u64> = [4.0f64, -1.0, 9.5, 0.0, 2.0, -7.25].iter().map(|z| z.to_bits()).collect();
    assert_eq!(z_order(&zs), vec![5, 1, 3, 4, 0, 2]);
    assert_eq!(folder_order(&zs.iter().map(|z| Some(*z)).collect()), Ok(vec![5, 1, 3, 4, 0, 2]));
    assert_eq!(z_order(&vec![]), Vec::<usize>::new());
}

#[test]
fn z_order_of_many_values_is_sorted_and_complete() {
    let n: usize = 5000;
    let zs: Vec<u64> = (0..n).map(|i| (((i * 7919) % n) as f64 - 2500.0).to_bits()).collect();
    let order = z_order(&zs);
    assert_eq!(order.len(), n);
    let mut seen = vec![false; n];
    for (rank, position) in order.iter().enumerate() {
        assert!(!seen[*position]);
        seen[*position] = true;
        assert_eq!(f64::from_bits(zs[*position]), rank as f64 - 2500.0);
    }
}
