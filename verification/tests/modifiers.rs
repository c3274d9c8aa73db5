use slha::deserialize::{deserialize_block, deserialize_decays, deserialize_vec_block};
use slha::errors::{Error, ErrorKind};
use slha::internal::WrappedBlock;
use slha::modifier::{TakeFirst, TakeLast, VecUnchecked};
use slha::slha::{check_block_scales, check_vec_scales, find_duplicates};
use slha::{Block, BlockSingle, Parseable, Real, Slha};

const MODSEL: &str = "\
Block MODsel Q= 10 # Select model
     3     10     # tanb
Block MODsel  # Select model
     4      1     # sign(mu)
Block MODsel Q= 20 # Select model
     1    100     # m0
Block MODsel Q= 10 # Select model
     2    250     # m12
Block MODsel  # Select model
     5   -100     # A0 ";

const DUPLICATE: &str = "\
# SUSY Les Houches Accord 1.0 - example input file
# Snowmsas point 1a
Block MODSEL  # Select model
     1    1   # sugra
Block SMINPUTS   # Standard Model inputs
     3      0.1172  # alpha_s(MZ) SM MSbar
     5      1.23    # Mb(mb) SM MSbar
     6    174.3     # Mtop(pole)
Block MODsel  # SUSY breaking input parameters
     3     10     # tanb
     4      1     # sign(mu)
     1    100     # m0
     2    250     # m12
     5   -100     # A0 ";

fn num(r: &Real) -> f64 {
    r.as_str().parse().unwrap()
}

fn val<'a, K: Parseable, V: Parseable>(b: &'a Block<K, V>, k: &K) -> &'a V {
    b.get(k).expect("missing key")
}

#[test]
fn take_first_keeps_first_block() {
    let modsel: TakeFirst<Block<i8, i64>> = deserialize_block(MODSEL, "modsel").unwrap();
    assert_eq!(modsel.scale.as_ref().map(num), Some(10.));
    assert_eq!(modsel.map.len(), 1);
    assert_eq!(*val(&modsel, &3), 10);
}

#[test]
fn take_last_keeps_last_block() {
    let modsel: TakeLast<Block<i8, i64>> = deserialize_block(MODSEL, "modsel").unwrap();
    assert_eq!(modsel.scale, None);
    assert_eq!(*val(&modsel, &5), -100);
}

#[test]
fn vec_unchecked_keeps_all_blocks() {
    let modsel: VecUnchecked<Block<i8, i64>> = deserialize_block(MODSEL, "modsel").unwrap();
    assert_eq!(modsel.len(), 5);
    assert_eq!(modsel[0].scale.as_ref().map(num), Some(10.));
    assert_eq!(*val(&modsel[0], &3), 10);
    assert_eq!(modsel[1].scale, None);
    assert_eq!(*val(&modsel[1], &4), 1);
    assert_eq!(modsel[2].scale.as_ref().map(num), Some(20.));
    assert_eq!(*val(&modsel[2], &1), 100);
    assert_eq!(modsel[3].scale.as_ref().map(num), Some(10.));
    assert_eq!(*val(&modsel[3], &2), 250);
    assert_eq!(modsel[4].scale, None);
    assert_eq!(*val(&modsel[4], &5), -100);
}

#[test]
fn vec_unchecked_matches_get_blocks_unchecked() {
    let all: VecUnchecked<Block<i8, i64>> = deserialize_block(MODSEL, "modsel").unwrap();
    let slha = Slha::parse(MODSEL).unwrap();
    let blocks: Vec<Block<i8, i64>> = slha.get_blocks_unchecked("MODSEL").unwrap();
    assert_eq!(all.len(), blocks.len());
    for (a, b) in all.iter().zip(blocks.iter()) {
        assert_eq!(a.map, b.map);
        assert_eq!(a.scale, b.scale);
    }
}

#[test]
fn plain_block_rejects_duplicates() {
    let err = deserialize_block::<Block<i8, i64>>(DUPLICATE, "modsel").unwrap_err();
    if let Error(ErrorKind::DuplicateBlock(name), _) = err {
        assert_eq!(&name, "modsel");
    } else {
        panic!("Wrong error variant {:?} instead of DuplicateBlock", err);
    }
    let err = deserialize_block::<Option<Block<i8, i64>>>(DUPLICATE, "modsel").unwrap_err();
    assert_eq!(err, Error(ErrorKind::DuplicateBlock("modsel".to_string()), vec![]));
}

#[test]
fn duplicate_block_with_modifiers() {
    let all: VecUnchecked<Block<i8, i64>> = deserialize_block(DUPLICATE, "modsel").unwrap();
    assert_eq!(all.len(), 2);
    assert_eq!(all[0].map.len(), 1);
    assert_eq!(*val(&all[0], &1), 1);
    assert_eq!(all[1].map.len(), 5);
    assert_eq!(*val(&all[1], &1), 100);
    assert_eq!(*val(&all[1], &5), -100);
    let first: TakeFirst<Block<i8, i64>> = deserialize_block(DUPLICATE, "modsel").unwrap();
    assert_eq!(first.map.len(), 1);
    assert_eq!(*val(&first, &1), 1);
    let last: TakeLast<Block<i8, i64>> = deserialize_block(DUPLICATE, "modsel").unwrap();
    assert_eq!(last.map.len(), 5);
    assert_eq!(*val(&last, &1), 100);
}

#[test]
fn missing_and_optional_blocks() {
    let present: Option<Block<i64, Real>> =
        deserialize_block("\nBLOCK MASS\n   6    173.2    # M_t\n", "mass").unwrap();
    let mass = present.unwrap();
    assert_eq!(num(val(&mass, &6)), 173.2);
    let absent: Option<Block<i64, Real>> = deserialize_block("", "mass").unwrap();
    assert!(absent.is_none());
    let err = deserialize_block::<Block<i64, Real>>("", "mass").unwrap_err();
    assert_eq!(err, Error(ErrorKind::MissingBlock("mass".to_string()), vec![]));
    let err = deserialize_block::<TakeFirst<Block<i64, Real>>>("", "mass").unwrap_err();
    assert_eq!(err, Error(ErrorKind::MissingBlock("mass".to_string()), vec![]));
    let err = deserialize_block::<TakeLast<Block<i64, Real>>>("", "mass").unwrap_err();
    assert_eq!(err, Error(ErrorKind::MissingBlock("mass".to_string()), vec![]));
    let none: VecUnchecked<Block<i64, Real>> = deserialize_block("", "mass").unwrap();
    assert_eq!(none.len(), 0);
}

#[test]
fn take_first_ignores_broken_later_blocks() {
    let input = "BLOCK A\n 1 2\nBLOCK A\n x y\n";
    let first: TakeFirst<Block<i8, i8>> = deserialize_block(input, "a").unwrap();
    assert_eq!(*val(&first, &1), 2);
    let err = deserialize_block::<TakeLast<Block<i8, i8>>>(input, "a").unwrap_err();
    assert_eq!(err.0, ErrorKind::InvalidBlock("a".to_string()));
}

#[test]
fn parse_into_and_unwrap_step_by_step() {
    let slha = Slha::parse("BLOCK X\n 1 5\nBLOCK X Q= 3\n 1 7\n").unwrap();
    let raws = slha.get_raw_blocks("x");
    let mut w = <TakeLast<Block<u8, u8>> as WrappedBlock>::new_wrapper();
    for raw in raws {
        <TakeLast<Block<u8, u8>> as WrappedBlock>::parse_into(raw, &mut w, "x").unwrap();
    }
    let last = <TakeLast<Block<u8, u8>> as WrappedBlock>::unwrap("x", w).unwrap();
    assert_eq!(*val(&last, &1), 7);
    let mut w = <BlockSingle<u8> as WrappedBlock>::new_wrapper();
    let raw = Slha::parse("BLOCK S\n 4\n").unwrap().get_raw_blocks("s")[0].clone();
    <BlockSingle<u8> as WrappedBlock>::parse_into(&raw, &mut w, "s").unwrap();
    let err = <BlockSingle<u8> as WrappedBlock>::parse_into(&raw, &mut w, "s").unwrap_err();
    assert_eq!(err, Error(ErrorKind::DuplicateBlock("s".to_string()), vec![]));
    assert_eq!(w.as_ref().map(|b| b.value), Some(4));
}

#[test]
fn deserialize_decays_reads_tables() {
    let input = "\nDecay 6 1.35\n   1  2   5  24  # t > W+ b\nBLOCK MASS\n 6 173.2\nDECAY 23 2.4952\n";
    let decays = deserialize_decays(input).unwrap();
    assert_eq!(decays.len(), 2);
    let top = &decays[&6];
    assert_eq!(num(&top.width), 1.35);
    assert_eq!(top.decays.len(), 1);
    assert_eq!(num(&top.decays[0].branching_ratio), 1.);
    assert_eq!(top.decays[0].daughters, vec![5, 24]);
    assert_eq!(decays[&23].decays.len(), 0);
    assert!(decays.get(&24).is_none());
    let err = deserialize_decays("DECAY 6 1\nDECAY 6 2\n").unwrap_err();
    assert_eq!(err, Error(ErrorKind::DuplicateDecay(6), vec![]));
}

#[test]
fn find_duplicates_smallest() {
    assert_eq!(find_duplicates(vec![]), None);
    assert_eq!(find_duplicates(vec![7]), None);
    assert_eq!(find_duplicates(vec![3, 1, 2]), None);
    assert_eq!(find_duplicates(vec![5, 3, 5, 3]), Some(3));
    assert_eq!(find_duplicates(vec![9, 4, 9, 1, 1, 4]), Some(1));
    assert_eq!(find_duplicates(vec![u64::MAX, 0, u64::MAX]), Some(u64::MAX));
}

#[test]
fn check_block_scales_cases() {
    assert_eq!(check_block_scales("Ye", &[]), Ok(()));
    assert_eq!(check_block_scales("Ye", &[None]), Ok(()));
    assert_eq!(check_block_scales("Ye", &[Some(4), Some(2), Some(9)]), Ok(()));
    assert_eq!(
        check_block_scales("Ye", &[None, Some(1), None]),
        Err(Error(ErrorKind::DuplicateBlock("ye".to_string()), vec![]))
    );
    assert_eq!(
        check_block_scales("Ye", &[Some(1), None]),
        Err(Error(ErrorKind::RedefinedBlockWithQ("ye".to_string()), vec![]))
    );
    assert_eq!(
        check_block_scales("Ye", &[Some(8), Some(5), Some(8), Some(5)]),
        Err(Error(ErrorKind::DuplicateBlockScale("ye".to_string(), 5), vec![]))
    );
}

#[test]
fn get_block_matches_plain_field() {
    let input = "BLOCK Mass\n 6 173.2\n 5 4.2\n";
    let slha = Slha::parse(input).unwrap();
    let a: Block<i64, Real> = slha.get_block("mass").unwrap().unwrap();
    let b: Block<i64, Real> = deserialize_block(input, "mass").unwrap();
    assert_eq!(a.map, b.map);
    assert_eq!(num(val(&a, &5)), 4.2);
}

fn key(x: f64) -> u64 {
    let x = if x == 0.0 { 0.0 } else { x };
    let bits = x.to_bits();
    if bits >> 63 == 1 {
        !bits
    } else {
        bits | (1u64 << 63)
    }
}

fn scale_key(r: &Real) -> u64 {
    key(num(r))
}

#[test]
fn check_vec_scales_cases() {
    assert_eq!(check_vec_scales("yf", &[]), Ok(()));
    assert_eq!(check_vec_scales("yf", &[None]), Ok(()));
    assert_eq!(check_vec_scales("yf", &[Some(3), Some(1), Some(2)]), Ok(()));
    assert_eq!(
        check_vec_scales("yf", &[Some(9), Some(4), Some(9), Some(4)]),
        Err(Error(ErrorKind::DuplicateBlockScale("yf".to_string(), 9), vec![]))
    );
    assert_eq!(
        check_vec_scales("yf", &[None, Some(1)]),
        Err(Error(ErrorKind::RedefinedBlockWithQ("yf".to_string()), vec![]))
    );
    assert_eq!(
        check_vec_scales("yf", &[Some(1), None]),
        Err(Error(ErrorKind::RedefinedBlockWithQ("yf".to_string()), vec![]))
    );
    assert_eq!(
        check_vec_scales("yf", &[None, None]),
        Err(Error(ErrorKind::DuplicateBlock("yf".to_string()), vec![]))
    );
}

const YF_TAIL: &str = "\
Block yu Q= 8
    3  3 1.4e-01
Block yd Q= 50
    3  3 1.4e-01
";

#[test]
fn vec_field_scales() {
    let equal = format!("Block yf Q= 4.64649125e+02\n 3 3 0.8\n{}Block yf Q= 4.64649125e+02\n 3 3 0.09\n", YF_TAIL);
    let err = deserialize_vec_block::<Block<(i8, i8), Real>, _>(&equal, "yf", scale_key).unwrap_err();
    assert_eq!(err, Error(ErrorKind::DuplicateBlockScale("yf".to_string(), key(4.64649125e+02)), vec![]));
    let noscale_scale = format!("Block yf\n 3 3 0.8\n{}Block yf Q= 4.64649125e+02\n 3 3 0.09\n", YF_TAIL);
    let err = deserialize_vec_block::<Block<(i8, i8), Real>, _>(&noscale_scale, "yf", scale_key).unwrap_err();
    assert_eq!(err, Error(ErrorKind::RedefinedBlockWithQ("yf".to_string()), vec![]));
    let scale_noscale = format!("Block yf Q= 4.64649125e+02\n 3 3 0.8\n{}Block yf\n 3 3 0.09\n", YF_TAIL);
    let err = deserialize_vec_block::<Block<(i8, i8), Real>, _>(&scale_noscale, "yf", scale_key).unwrap_err();
    assert_eq!(err, Error(ErrorKind::RedefinedBlockWithQ("yf".to_string()), vec![]));
    let err = deserialize_vec_block::<Block<i8, i64>, _>(DUPLICATE, "modsel", scale_key).unwrap_err();
    assert_eq!(err, Error(ErrorKind::DuplicateBlock("modsel".to_string()), vec![]));
    let different = format!("Block yf Q= 4.64649125e+02\n 3 3 0.8\n{}Block yf Q= 8\n 3 3 0.09\n", YF_TAIL);
    let blocks = deserialize_vec_block::<Block<(i8, i8), Real>, _>(&different, "yf", scale_key).unwrap();
    assert_eq!(blocks.len(), 2);
    assert_eq!(blocks[1].scale.as_ref().map(num), Some(8.));
    assert_eq!(num(val(&blocks[1], &(3, 3))), 0.09);
    let none = deserialize_vec_block::<Block<(i8, i8), Real>, _>(YF_TAIL, "yf", scale_key).unwrap();
    assert_eq!(none.len(), 0);
}

#[test]
fn unused_block_is_ignored() {
    let extra = "Block unused Q= 3\n 1 2 3 4\n";
    let input = format!("{}\n", MODSEL);
    let a: VecUnchecked<Block<i8, i64>> = deserialize_block(&input, "modsel").unwrap();
    let b: VecUnchecked<Block<i8, i64>> = deserialize_block(&(input.clone() + extra), "modsel").unwrap();
    assert_eq!(a.len(), b.len());
    let err1 = deserialize_block::<Block<i8, i64>>(&input, "modsel").unwrap_err();
    let err2 = deserialize_block::<Block<i8, i64>>(&(input + extra), "modsel").unwrap_err();
    assert_eq!(err1, err2);
}
