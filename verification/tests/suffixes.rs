use azuki::bwt::bwt;
use azuki::suffix_array::{
    lcp_array, rank_array, suffix_array, SuffixArrayBucket, SuffixType, U8Bucket,
};
use azuki::suffix_reference::SuffixReference;

fn suffixes_of(data: &[u8]) -> (Vec<usize>, Vec<usize>, Vec<usize>) {
    let sa = suffix_array(data, &U8Bucket);
    let rank = rank_array(&sa);
    let lcp = lcp_array(data, &U8Bucket, &sa, &rank);
    (sa, rank, lcp)
}

#[test]
fn empty_input_has_empty_arrays() {
    let (sa, rank, lcp) = suffixes_of(b"");
    assert_eq!(sa, Vec::<usize>::new());
    assert_eq!(rank, Vec::<usize>::new());
    assert_eq!(lcp, Vec::<usize>::new());
}

#[test]
fn singleton_input() {
    let (sa, rank, lcp) = suffixes_of(b"a");
    assert_eq!(sa, vec![0]);
    assert_eq!(rank, vec![0]);
    assert_eq!(lcp, vec![0]);
}

#[test]
fn banana_suffix_arrays() {
    let (sa, rank, lcp) = suffixes_of(b"banana");
    assert_eq!(sa, vec![5, 3, 1, 0, 4, 2]);
    assert_eq!(rank, vec![3, 2, 5, 1, 4, 0]);
    assert_eq!(lcp, vec![0, 1, 3, 0, 0, 2]);
}

#[test]
fn mississippi_suffix_array() {
    let (sa, _, _) = suffixes_of(b"mississippi");
    assert_eq!(sa, vec![10, 7, 4, 1, 0, 9, 8, 6, 3, 5, 2]);
}

#[test]
fn rank_inverts_suffix_array() {
    let inputs: [&[u8]; 4] = [b"banana", b"mississippi", b"AAAAAAAAAA", b"abracadabra"];
    for data in inputs {
        let (sa, rank, _) = suffixes_of(data);
        assert_eq!(sa.len(), data.len());
        for r in 0..sa.len() {
            assert_eq!(rank[sa[r]], r);
        }
        for i in 0..rank.len() {
            assert_eq!(sa[rank[i]], i);
        }
    }
}

#[test]
fn suffixes_are_strictly_increasing() {
    let inputs: [&[u8]; 4] = [b"banana", b"mississippi", b"AAAAAAAAAA", b"zyxwvut"];
    for data in inputs {
        let (sa, _, _) = suffixes_of(data);
        for r in 1..sa.len() {
            let a = &data[sa[r - 1]..];
            let b = &data[sa[r]..];
            assert!(a < b, "suffixes must be strictly increasing");
        }
    }
}

#[test]
fn lcp_matches_direct_comparison() {
    let inputs: [&[u8]; 3] = [b"banana", b"mississippi", b"AAAAAAAAAA"];
    for data in inputs {
        let (sa, _, lcp) = suffixes_of(data);
        for r in 1..sa.len() {
            let a = &data[sa[r - 1]..];
            let b = &data[sa[r]..];
            let mut l: usize = 0;
            while l < a.len() && l < b.len() && a[l] == b[l] {
                l += 1;
            }
            assert_eq!(lcp[r], l);
            assert!(lcp[r] <= data.len() - sa[r - 1]);
            assert!(lcp[r] <= data.len() - sa[r]);
        }
    }
}

#[test]
fn banana_back_references() {
    let data = b"banana";
    let suffix = SuffixReference::from_data(data, &U8Bucket);
    assert!(suffix.back(0).is_none());
    assert!(suffix.back(1).is_none());
    assert!(suffix.back(2).is_none());
    let b3 = suffix.back(3).unwrap();
    assert_eq!((b3.index, b3.lcp), (1, 3));
    let b4 = suffix.back(4).unwrap();
    assert_eq!((b4.index, b4.lcp), (2, 2));
    let b5 = suffix.back(5).unwrap();
    assert_eq!((b5.index, b5.lcp), (3, 1));
    assert!(suffix.back(6).is_none(), "past the end there is no reference");
}

#[test]
fn singleton_back_reference_is_none() {
    let suffix = SuffixReference::from_data(b"a", &U8Bucket);
    assert!(suffix.back(0).is_none());
}

#[test]
fn back_references_point_strictly_before_and_match() {
    let inputs: [&[u8]; 3] = [b"abcabcabcabc", b"aabbaabbaa", b"mississippi"];
    for data in inputs {
        let suffix = SuffixReference::from_data(data, &U8Bucket);
        for i in 0..data.len() {
            if let Some(b) = suffix.back(i) {
                assert!(b.index < i);
                assert!(b.lcp >= 1);
                assert!(i + b.lcp <= data.len());
                assert_eq!(&data[b.index..b.index + b.lcp], &data[i..i + b.lcp]);
                // The shared prefix is maximal: the next elements differ or
                // one suffix has ended.
                if i + b.lcp < data.len() && b.index + b.lcp < data.len() {
                    assert!(data[b.index + b.lcp] != data[i + b.lcp]);
                }
            }
        }
    }
}

#[test]
fn best_back_reference_is_never_beaten() {
    // No earlier position may share a strictly longer prefix than the one
    // recorded, and ties go to the nearer position.
    let inputs: [&[u8]; 3] = [b"abcabcabcabc", b"banana", b"aabbaabbaa"];
    for data in inputs {
        let suffix = SuffixReference::from_data(data, &U8Bucket);
        for i in 0..data.len() {
            let mut best: usize = 0;
            let mut best_j: usize = 0;
            for j in 0..i {
                let mut l: usize = 0;
                while i + l < data.len() && data[j + l] == data[i + l] {
                    l += 1;
                }
                if l >= best {
                    best = l;
                    best_j = j;
                }
            }
            match suffix.back(i) {
                Some(b) => {
                    assert_eq!(b.lcp, best);
                    assert_eq!(b.index, best_j, "ties go to the nearest position");
                }
                None => assert_eq!(best, 0),
            }
        }
    }
}

#[test]
fn back_reference_tie_break_prefers_the_nearest() {
    // "ab" occurs at 0, 3 and 6; for position 6 both earlier occurrences
    // share two bytes, and the nearer one wins.
    let data = b"abXabYab";
    let suffix = SuffixReference::from_data(data, &U8Bucket);
    let b6 = suffix.back(6).unwrap();
    assert_eq!((b6.index, b6.lcp), (3, 2));
}

#[test]
fn suffix_reference_index_and_rank() {
    let data = b"banana";
    let suffix = SuffixReference::from_data(data, &U8Bucket);
    let expected_sa = [5, 3, 1, 0, 4, 2];
    for r in 0..6 {
        assert_eq!(suffix.index(r), expected_sa[r]);
        assert_eq!(suffix.rank(expected_sa[r]), r);
    }
}

#[test]
fn bwt_of_banana() {
    let data = b"banana";
    let sa = suffix_array(data, &U8Bucket);
    let transformed = bwt(data, &sa);
    assert_eq!(transformed, b"annbaa".to_vec());
}

#[test]
fn bwt_of_empty_is_empty() {
    let sa = suffix_array(b"", &U8Bucket);
    let transformed = bwt(b"", &sa);
    assert_eq!(transformed, Vec::<u8>::new());
}

#[test]
fn bucket_store_push_and_read_back() {
    let data: &[u8] = b"aba";
    let types = [SuffixType::S, SuffixType::L, SuffixType::L];
    let store_types: &[SuffixType] = &types;
    let mut bucket = SuffixArrayBucket::new(data, store_types, &U8Bucket);
    assert_eq!(bucket.len(), 3);
    assert_eq!(bucket.num_bins(), 256);
    assert_eq!(bucket.len_l_bin(97), 0);
    assert_eq!(bucket.len_s_bin(97), 0);

    // 'a' has an L-tally of 1 and an S-tally of 1; 'b' an L-tally of 1.
    bucket.push(0, &b'a', SuffixType::S);
    bucket.push(2, &b'a', SuffixType::L);
    bucket.push(1, &b'b', SuffixType::L);
    assert_eq!(bucket.len_l_bin(97), 1);
    assert_eq!(bucket.len_s_bin(97), 1);
    assert_eq!(bucket.len_l_bin(98), 1);
    assert_eq!(bucket.l_index_by_rank(97, 0), 2);
    assert_eq!(bucket.l_index_by_rev_rank(97, 0), 2);
    assert_eq!(bucket.s_index_by_rank(97, 0), 0);
    assert_eq!(bucket.s_index_by_rev_rank(97, 0), 0);
    assert_eq!(bucket.l_index_by_rank(98, 0), 1);

    let mut l_iter = bucket.iter_l_bins();
    let first_l = l_iter.next().unwrap();
    assert_eq!(first_l.len(), 0, "bin 0 is empty");
    let mut s_iter = bucket.iter_s_bins();
    assert_eq!(s_iter.next().unwrap().len(), 0);
    let mut both = bucket.iter_bins();
    let mut seen: Vec<usize> = Vec::new();
    let mut regions: usize = 0;
    while let Some(region) = both.next() {
        for &v in region.iter() {
            seen.push(v);
        }
        regions += 1;
    }
    assert_eq!(regions, 512, "an L- and an S-region per bin");
    assert_eq!(seen, vec![2, 0, 1], "'a' L-region, 'a' S-region, 'b' L-region");

    bucket.clear(97, SuffixType::L);
    assert_eq!(bucket.len_l_bin(97), 0);
    assert_eq!(bucket.len_s_bin(97), 1);
    bucket.clear_both(97);
    assert_eq!(bucket.len_s_bin(97), 0);
    bucket.clear_all();
    assert_eq!(bucket.len_l_bin(98), 0);
    let flat = bucket.into_indices();
    assert_eq!(flat.len(), 3);
}
