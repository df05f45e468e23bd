use lifesearch::dfs::lifecycle::LogLevel;
use lifesearch::ds::either::Either;
use lifesearch::ds::err::StringError;
use lifesearch::ds::tuple::TupleEnd;
use lifesearch::ds::tuple::TupleStart;
use lifesearch::opts::help::HelpTarget;
use lifesearch::opts::help::OptionsHelp;
use lifesearch::opts::help::ToOptionsHelp;
use lifesearch::opts::vals::BooleanOption;
use lifesearch::opts::vals::DefaultedOption;
use lifesearch::opts::vals::ErrDefaulter;
use lifesearch::opts::vals::UnvalidatedOption;
use lifesearch::par::RangePar;
use lifesearch::validates::Validates;
use lifesearch::validates::ValidationError;

#[test]
fn string_error_label_prefixes() {
    let e = StringError::new("bad input");
    assert_eq!(e.label("load").msg, "load: bad input");
}

#[test]
fn validation_error_label_quotes_message() {
    let e = ValidationError::Message("abc".to_string()).label("p");
    match e {
        ValidationError::Message(m) => assert_eq!(m, "p: \"abc\""),
        ValidationError::Help(_) => panic!("expected a message"),
    }
    let h = ValidationError::Help(vec!["x".to_string()]).label("p");
    match h {
        ValidationError::Help(l) => assert_eq!(l, vec!["x".to_string()]),
        ValidationError::Message(_) => panic!("expected help"),
    }
}

#[test]
fn validation_error_message_and_help() {
    match ValidationError::message::<u32>("oops") {
        Err(ValidationError::Message(m)) => assert_eq!(m, "oops"),
        _ => panic!("expected a message"),
    }
    match ValidationError::help::<u32>(vec!["a".to_string(), "b".to_string()]) {
        Err(ValidationError::Help(l)) => assert_eq!(l.len(), 2),
        _ => panic!("expected help"),
    }
}

#[test]
fn either_maps_and_joins() {
    let l: Either<u32, u32> = Either::Left(3);
    assert!(matches!(l.map_left(|x| x + 1), Either::Left(4)));
    let r: Either<u32, u32> = Either::Right(5);
    assert!(matches!(r.map_left(|x| x + 1), Either::Right(5)));
    let r2: Either<u32, u32> = Either::Right(5);
    assert!(matches!(r2.map_right(|x| x * 2), Either::Right(10)));
    let j: Either<u32, u32> = Either::Left(7);
    assert_eq!(j.join(), 7);
}

#[test]
fn either_convert_r_mut() {
    let mut e: Either<u32, String> = Either::Left(4);
    {
        let r = e.convert_r_mut(|l| format!("{}!", l));
        r.push('?');
    }
    assert!(matches!(e, Either::Right(ref s) if s == "4!?"));
    let r = e.convert_r_mut(|_| "unused".to_string());
    assert_eq!(r, "4!?");
}

#[test]
fn log_level_names() {
    assert_eq!(LogLevel::INFO.name(), "INFO");
    assert_eq!(LogLevel::DEBUG.name(), "DEBUG");
}

#[test]
fn tuple_split_and_join() {
    let t = (1u8, 2u16, 3u32);
    let (f, b) = <(u8, u16, u32) as TupleEnd>::split_tuple_end(t);
    assert_eq!(f, (1u8, 2u16));
    assert_eq!(b, 3u32);
    assert_eq!(<(u8, u16, u32) as TupleEnd>::join_tuple_end(f, b), t);
    let (h, rest) = <(u8, u16, u32) as TupleStart>::split_tuple_start(t);
    assert_eq!(h, 1u8);
    assert_eq!(rest, (2u16, 3u32));
    assert_eq!(<(u8, u16, u32) as TupleStart>::join_tuple_start(h, rest), t);
}

#[test]
fn help_pair_for_aliases() {
    let h = OptionsHelp { meta: None, msg: Some("does it".to_string()) };
    let (lhs, rhs) = h.to_pair(&HelpTarget::Args(vec!["a".to_string(), "long".to_string()], 2));
    assert_eq!(lhs, "-a|--long <arg> <arg>");
    assert_eq!(rhs, "does it");
    let h2 = OptionsHelp { meta: Some("FILE".to_string()), msg: None };
    let (lhs2, rhs2) = h2.to_pair(&HelpTarget::Args(vec!["é".to_string()], 1));
    assert_eq!(lhs2, "--é FILE");
    assert_eq!(rhs2, "");
    let (lhs3, _) = h2.to_pair(&HelpTarget::ExtraHard);
    assert_eq!(lhs3, "FILE");
    let h3 = OptionsHelp { meta: None, msg: None };
    assert_eq!(h3.to_pair(&HelpTarget::ExtraSoft).0, "<arg>");
    assert_eq!(h3.to_pair(&HelpTarget::ExtraHard).0, "<args>");
}

#[test]
fn to_help_forms() {
    let h = ().to_help().unwrap();
    assert!(h.meta.is_none() && h.msg.is_none());
    let h = ("M".to_string(), "msg".to_string()).to_help().unwrap();
    assert_eq!(h.meta, Some("M".to_string()));
    assert_eq!(h.msg, Some("msg".to_string()));
}

#[test]
fn boolean_option_set_clear() {
    let mut b = BooleanOption::default();
    assert!(b.set().is_ok());
    assert!(b.0);
    assert!(b.clear().is_ok());
    assert!(matches!(b.validate(), Ok(false)));
}

#[test]
fn defaulted_option_given_twice_fails() {
    let mut d: DefaultedOption<u32, ErrDefaulter> = DefaultedOption::default();
    assert!(d.set(3).is_ok());
    match d.set(4) {
        Err(ValidationError::Message(m)) => assert_eq!(m, "DefaultedOption specified multiple times"),
        _ => panic!("expected an error"),
    }
    assert_eq!(d.0, Some(3));
    assert!(matches!(d.maybe_set(5), Ok(false)));
    assert!(matches!(d.validate(), Ok(3)));
}

#[test]
fn missing_required_option_fails() {
    let d: DefaultedOption<u32, ErrDefaulter> = DefaultedOption::default();
    match d.validate() {
        Err(ValidationError::Message(m)) => assert_eq!(m, "Missing option"),
        _ => panic!("expected an error"),
    }
}

#[test]
fn optional_option_set_once() {
    let mut o: UnvalidatedOption<Option<u32>> = UnvalidatedOption(None);
    assert!(matches!(o.maybe_set(1), Ok(true)));
    assert!(o.set(2).is_err());
    assert_eq!(o.0, Some(1));
}

#[test]
fn push_split_on_commas() {
    let mut v: UnvalidatedOption<Vec<String>> = UnvalidatedOption(vec!["z".to_string()]);
    assert!(v.push_split("a,b,,c").is_ok());
    assert_eq!(v.0, vec!["z", "a", "b", "", "c"]);
    let mut w: UnvalidatedOption<Vec<String>> = UnvalidatedOption(Vec::new());
    assert!(w.push_split("").is_ok());
    assert_eq!(w.0, vec![""]);
}

#[test]
fn range_chunks_cover_range() {
    let mut it = (0usize..10).par().par_split(3);
    let mut chunks = Vec::new();
    while let Some(mut c) = it.next() {
        let mut items = Vec::new();
        while let Some(i) = c.next() {
            items.push(i);
        }
        chunks.push(items);
    }
    assert_eq!(chunks, vec![vec![0, 1, 2, 3], vec![4, 5, 6], vec![7, 8, 9]]);
}

#[test]
fn range_chunks_of_short_range() {
    let mut it = (5usize..7).par().par_split(4);
    let mut lens = Vec::new();
    while let Some(mut c) = it.next() {
        let mut n = 0;
        while let Some(_) = c.next() {
            n += 1;
        }
        lens.push(n);
    }
    assert_eq!(lens, vec![1, 1]);
    let mut empty = (7usize..3).par().par_split(2);
    assert!(empty.next().is_none());
}
