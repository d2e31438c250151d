use scalar_eval::literal::{parse_bytes, parse_literal, times_power_of_ten};
use scalar_eval::natural::Natural;

fn check(text: &str) {
    let want = text.parse::<f64>();
    let got = parse_literal(text);
    match (got, want) {
        (Some(g), Ok(w)) => {
            if w.is_nan() {
                assert!(g.is_nan(), "{:?}", text);
            } else {
                assert_eq!(g.to_bits(), w.to_bits(), "{:?}", text);
            }
        }
        (None, Err(_)) => {}
        (g, w) => panic!("{:?}: {:?} against {:?}", text, g, w),
    }
}

#[test]
fn plain_numbers() {
    for s in [
        "0", "1", "10", "123456789", "0.5", "0.25", "0.1", "0.3", "3.141592653589793", "2.718281828459045",
        "1.7976931348623157e308", "2.2250738585072014e-308", "4.9e-324", "5e-324", "1e0", "1e1", "1e22",
        "1e23", "123456789012345678901234567890", "0.000000000000000000000000000001", "9007199254740993",
        "9007199254740992", "9007199254740995", "0.1e1", "100e-2", "00012.5000", "1e+5", "1E5", "1.e5",
        ".5e1", "-0", "-0.0", "+0", "-1e-400", "1e400", "1.5", "-1.5",
    ] {
        check(s);
    }
}

#[test]
fn named_values() {
    for s in [
        "inf", "-inf", "+inf", "infinity", "-infinity", "INF", "Infinity", "iNfInItY", "nan", "NaN",
        "-nan", "+NAN", "infinit", "infinityy", "in", "na", "nany", "i", "-", "+", "inf ", "nan0",
    ] {
        check(s);
    }
    assert_eq!(parse_literal("-inf").unwrap().to_bits(), f64::NEG_INFINITY.to_bits());
    assert!(parse_literal("nan").unwrap().is_nan());
}

#[test]
fn texts_that_are_no_literals() {
    for s in [
        "", " ", "1 ", " 1", "1.2.3", "1e", "1e+", "1e-", "e1", ".", "-.", "+.", ".e1", "1e1.5", "1f",
        "0x1p3", "1_000", "--1", "+-1", "1e1e1", "1..2", "\u{0663}", "1\u{00a0}", "１", "1e５",
    ] {
        assert!(parse_literal(s).is_none(), "{:?}", s);
        check(s);
    }
}

#[test]
fn halfway_cases_round_to_even() {
    for s in [
        "9007199254740993",
        "9007199254740993.0000000000000000000000000000000000000001",
        "9007199254740992.9999999999999999999999999999999999999999",
        "1.00000000000000011102230246251565404236316680908203125",
        "1.00000000000000011102230246251565404236316680908203124",
        "1.00000000000000011102230246251565404236316680908203126",
        "1.00000000000000033306690738754696212708950042724609375",
        "2.4703282292062327208051222937777e-324",
        "2.4703282292062328e-324",
        "2.47032822920623272e-324",
        "2.470328229206232720882843964341106861825299013071623822127928412503377536351043e-324",
        "2.470328229206232720882843964341106861825299013071623822127928412503377536351044e-324",
        "7.4109846876186981626485318930233205854758970392148714663837852375101326090531312779794975454245398856969484704316857659638998506553390969459816219401617281718945106978546710679176872575177347315553307795408549809608457500958111373034747658096871009590975442271004757307809711118935784838675653998783503015228055934046593739791790738723868299395818481660169122019456499931289798411362062484498678713572180352209017023903285791732520220528974020802906854021606612375549983402671300035812486479041385743401875520901590172592547146296175134159774938718574737870961645638908718119841271673056017045493004705269590165763776884908267986972573366521765567941072508764337560846003984904972149117463085539556354188641513168478436313080237596295773983001708984375e-324",
        "1.7976931348623158e308",
        "1.7976931348623159e308",
        "179769313486231580793728971405303415079934132710037826936173778980444968292764750946649017977587207096330286416692887910946555547851940402630657488671505820681908902000708383676273854845817711531764475730270069855571366959622842914819860834936475292719074168444365510704342711559699508093042880177904174497791",
        "179769313486231580793728971405303415079934132710037826936173778980444968292764750946649017977587207096330286416692887910946555547851940402630657488671505820681908902000708383676273854845817711531764475730270069855571366959622842914819860834936475292719074168444365510704342711559699508093042880177904174497792",
        "8.98846567431158e307",
        "2.2250738585072011e-308",
        "2.2250738585072012e-308",
        "2.225073858507201136057409796709131975934819546351645648023426109724822222021076945516529523908135087914149158913039621106870086438694594645527657207407820621743379988141063267329253552286881372149012981122451451889849057222307285255133155755015914397476397983411801999323962548289017107081850690630666655994938275772572015763062690663332647565300009245888316433037779791869612049497390377829704905051080609940730262937128958950003583799967207254304360284078895771796150945516748243471030702609144621572289880258182545180325707018860872113128079512233426288368622321503775666622503982534335974568884423900265498198385487948292206894721689831099698365846814022854243330660339850886445804001034933970427567186443383770486037861622771738545623065874679014086723327636718751e-308",
    ] {
        check(s);
    }
}

#[test]
fn extreme_exponents() {
    for s in [
        "1e308", "1e309", "1e1023", "1e1024", "1e99999", "1e-99999", "0e99999999999999999999999999999999999",
        "1e99999999999999999999999999999999999", "1e-99999999999999999999999999999999999",
        "0.0000000001e320", "10000000000e-330", "1e-323", "1e-324", "3e-324", "1e-1074", "1e-1100",
        "0e-5", "0.0e0", "-0e999", "123e-400", "123e400", "1e000000000000000000000000000000000000005",
    ] {
        check(s);
    }
    let mut long = String::from("0.");
    for _ in 0..400 {
        long.push('0');
    }
    long.push_str("1e400");
    check(&long);
    let mut wide = String::from("1");
    for _ in 0..400 {
        wide.push('0');
    }
    wide.push_str("e-400");
    check(&wide);
    let mut many = String::new();
    for i in 0..1200 {
        many.push(char::from(b'0' + (i % 10) as u8));
    }
    many.push_str(".5e-900");
    check(&many);
}

#[test]
fn generated_decimals_agree_with_the_standard_parser() {
    let mut state: u64 = 0x9e37_79b9_7f4a_7c15;
    for _ in 0..400 {
        state = state.wrapping_mul(6364136223846793005).wrapping_add(1442695040888963407);
        let digits = state >> 11;
        state = state.wrapping_mul(6364136223846793005).wrapping_add(1442695040888963407);
        let exponent = ((state >> 33) % 700) as i64 - 350;
        let text = format!("{}e{}", digits, exponent);
        check(&text);
        let text = format!("-{}.{}E{}", digits % 1000, digits, exponent / 2);
        check(&text);
    }
}

#[test]
fn shortest_representations_round_trip() {
    let mut state: u64 = 0x0123_4567_89ab_cdef;
    for _ in 0..400 {
        state = state.wrapping_mul(6364136223846793005).wrapping_add(1442695040888963407);
        let bits = state & 0x7fff_ffff_ffff_ffff;
        let x = f64::from_bits(bits);
        if x.is_finite() {
            let text = format!("{:e}", x);
            assert_eq!(parse_literal(&text).unwrap().to_bits(), bits, "{}", text);
            let text = format!("-{}", x);
            assert_eq!(parse_literal(&text).unwrap().to_bits(), bits | (1 << 63), "{}", text);
        }
    }
}

#[test]
fn bytes_that_are_not_text() {
    assert!(parse_bytes(&[0xff, 0x31]).is_none());
    assert!(parse_bytes(&[0x31, 0x00]).is_none());
    assert_eq!(parse_bytes(&[0x31, 0x2e, 0x35]).unwrap().to_bits(), 1.5f64.to_bits());
}

#[test]
fn powers_of_ten() {
    let x = times_power_of_ten(Natural::from_u64(7), 3);
    assert!(x.le(&Natural::from_u64(7000)) && Natural::from_u64(7000).le(&x));
    let y = times_power_of_ten(Natural::from_u64(1), 25);
    let want = Natural::from_u128(10_000_000_000_000_000_000_000_000);
    assert!(y.le(&want) && want.le(&y));
}
