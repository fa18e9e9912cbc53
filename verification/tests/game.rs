use bulls_and_cows::breaker::CodeBreaker;
use bulls_and_cows::breaker::Responder;
use bulls_and_cows::breaker::play_auto;
use bulls_and_cows::code::Code;
use bulls_and_cows::code::all_possible_codes;
use bulls_and_cows::feedback::BC;
use bulls_and_cows::feedback::bc;

#[test]
fn it_works() {
    let resp = Responder { secret_code: Code { digits: [1, 2, 7, 8] } };

    let guess = Code { digits: [1, 2, 3, 4] };
    assert_eq!(resp.response(&guess), BC { bulls: 2, cows: 0 });

    let guess = Code { digits: [0, 1, 7, 2] };
    assert_eq!(resp.response(&guess), BC { bulls: 1, cows: 2 });

    assert_eq!(Code::from_number(1357), Code { digits: [1, 3, 5, 7] });

    assert!(Code::from_number(1357).is_valid());
    assert!(!Code::from_number(1123).is_valid());
}

#[test]
fn universe_has_5040_codes() {
    let v = all_possible_codes();
    assert_eq!(v.len(), 5040);
    for c in v.iter() {
        assert!(c.is_valid());
    }
    // Numeric-ascending order; strict order also means no repeats.
    let mut prev: i64 = -1;
    for c in v.iter() {
        let n = c.digits[0] as i64 * 1000 + c.digits[1] as i64 * 100 + c.digits[2] as i64 * 10
            + c.digits[3] as i64;
        assert!(n > prev);
        prev = n;
    }
    assert_eq!(v[0], Code { digits: [0, 1, 2, 3] });
    assert_eq!(v[5039], Code { digits: [9, 8, 7, 6] });
}

#[test]
fn from_number_edges() {
    assert_eq!(Code::from_number(0), Code { digits: [0, 0, 0, 0] });
    assert_eq!(Code::from_number(9999), Code { digits: [9, 9, 9, 9] });
    assert_eq!(Code::from_number(9876), Code { digits: [9, 8, 7, 6] });
    assert!(!Code::from_number(0).is_valid());
    assert!(Code::from_number(123).is_valid());
}

#[test]
fn score_of_code_against_itself() {
    for n in [123u16, 1278, 5678, 9876] {
        let c = Code::from_number(n);
        assert!(c.is_valid());
        assert_eq!(bc(&c, &c), BC { bulls: 4, cows: 0 });
    }
}

#[test]
fn score_with_repeated_digits_double_counts() {
    // The scoring rule counts matches by digit pairs, so it reports
    // spurious cows once digits repeat; validity rules that out.
    let c = Code { digits: [1, 1, 2, 3] };
    assert_eq!(bc(&c, &c), BC { bulls: 4, cows: 2 });
}

#[test]
fn score_is_symmetric() {
    let pairs = [
        (1278u16, 1234u16),
        (1278, 172),
        (123, 9876),
        (5678, 1278),
        (123, 3210),
    ];
    for (a, b) in pairs {
        let ca = Code::from_number(a);
        let cb = Code::from_number(b);
        assert_eq!(bc(&ca, &cb), bc(&cb, &ca));
    }
}

#[test]
fn make_turn_never_grows_the_pool() {
    let resp = Responder { secret_code: Code::from_number(1278) };
    let mut breaker = CodeBreaker::new(&resp);
    let before = breaker.possible_correct_codes.len();
    breaker.make_turn(&Code::from_number(1234));
    let after = breaker.possible_correct_codes.len();
    assert!(after <= before);
    breaker.make_turn(&Code::from_number(5678));
    assert!(breaker.possible_correct_codes.len() <= after);
}

#[test]
fn secret_stays_in_the_pool() {
    let secret = Code { digits: [1, 2, 7, 8] };
    let resp = Responder { secret_code: secret };
    let mut breaker = CodeBreaker::new(&resp);
    for n in [1234u16, 5678, 172, 9876] {
        breaker.make_turn(&Code::from_number(n));
        assert!(breaker.possible_correct_codes.contains(&secret));
    }
}

#[test]
fn two_turn_scenario() {
    let secret = Code { digits: [1, 2, 7, 8] };
    let resp = Responder { secret_code: secret };
    let mut breaker = CodeBreaker::new(&resp);

    let g1 = Code { digits: [1, 2, 3, 4] };
    let f1 = breaker.make_turn(&g1);
    assert_eq!(f1, BC { bulls: 2, cows: 0 });

    let g2 = Code { digits: [5, 6, 7, 8] };
    let f2 = breaker.make_turn(&g2);
    assert_eq!(f2, BC { bulls: 2, cows: 0 });

    assert!(!breaker.possible_correct_codes.is_empty());
    for c in breaker.possible_correct_codes.iter() {
        assert_eq!(bc(c, &g1), f1);
        assert_eq!(bc(c, &g2), f2);
    }
    assert!(breaker.possible_correct_codes.contains(&secret));
}

#[test]
fn auto_play_converges() {
    let secret = Code { digits: [1, 2, 7, 8] };
    let resp = Responder { secret_code: secret };
    let mut breaker = CodeBreaker::new(&resp);
    let mut turns = 0;
    loop {
        let guess = breaker.find_best_guess();
        let res = breaker.make_turn(&guess);
        turns += 1;
        if res.bulls == 4 {
            assert_eq!(guess, secret);
            break;
        }
        assert!(turns < 10);
    }
    assert!(turns <= 6);
}

#[test]
fn play_auto_finds_the_fixed_secret() {
    assert_eq!(play_auto(), Code { digits: [1, 2, 7, 8] });
}
