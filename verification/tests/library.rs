use stpsyr::mapfile::build_map;
use stpsyr::parse::{read_order, read_orders, read_words};
use stpsyr::text::{chars_of, space, split_words};
use stpsyr::{
    Action, AdjudicationError, AdjustAction, MapError, Order, OrderState, Phase, Pick, Power,
    Province, RetreatAction, Stpsyr, Unit, UnitType,
};

const STANDARD: &str = "\
name,sc,owner,unit,fleet,army
nao,false,,,nwg cly lvp iri mao,
nwg,false,,,nao bar nwy nth edi cly,
bar,false,,,nwg stp/nc nwy,
nth,false,,,nwg nwy ska den hel hol bel eng lon yor edi,
ska,false,,,nth nwy swe den,
hel,false,,,nth den kie hol,
bal,false,,,swe bot lvn pru ber kie den,
bot,false,,,swe fin stp/sc lvn bal,
iri,false,,,nao lvp wal eng mao,
eng,false,,,iri wal lon nth bel pic bre mao,
mao,false,,,nao iri eng bre gas spa/nc por spa/sc naf wes,
wes,false,,,mao spa/sc lyo tys tun naf,
lyo,false,,,spa/sc mar pie tus tys wes,
tys,false,,,lyo tus rom nap ion tun wes,
ion,false,,,tys nap apu adr alb gre aeg eas tun,
adr,false,,,ven tri alb ion apu,
aeg,false,,,gre bul/sc con smy eas ion,
eas,false,,,ion aeg smy syr,
bla,false,,,rum sev arm ank con bul/ec,
cly,false,,,nao nwg edi lvp,edi lvp
edi,true,England,Fleet,cly nwg nth yor,cly lvp yor
lvp,true,England,Army,cly nao iri wal,cly edi yor wal
yor,false,,,edi nth lon,edi lvp wal lon
wal,false,,,lvp iri eng lon,lvp yor lon
lon,true,England,Fleet,yor nth eng wal,yor wal
bre,true,France,Fleet,eng pic gas mao,pic par gas
pic,false,,,bre eng bel,bre par bur bel
par,true,France,Army,,bre pic bur gas
bur,false,,,,par pic bel ruh mun mar gas
gas,false,,,bre mao spa/nc,bre par bur mar spa
mar,true,France,Army,spa/sc lyo pie,gas bur pie spa
spa/nc,true,,,por mao gas,por gas mar
spa/sc,true,,,por mao wes lyo mar,por gas mar
por,true,,,mao spa/nc spa/sc,spa
naf,false,,,mao wes tun,tun
tun,true,,,naf wes tys ion,naf
pie,false,,,mar lyo tus,mar tyr ven tus
tus,false,,,pie lyo tys rom,pie ven rom
rom,true,Italy,Army,tus tys nap,tus ven apu nap
nap,true,Italy,Fleet,rom tys ion apu,rom apu
apu,false,,,ven adr ion nap,ven rom nap
ven,true,Italy,Army,tri adr apu,pie tyr tri apu rom tus
bel,true,,,pic eng nth hol,pic bur ruh hol
hol,true,,,bel nth hel kie,bel ruh kie
ruh,false,,,,bel hol kie mun bur
kie,true,Germany,Fleet,hol hel den bal ber,hol ruh mun ber den
ber,true,Germany,Army,kie bal pru,kie mun sil pru
mun,true,Germany,Army,,ruh kie ber sil boh tyr bur
den,true,,,kie hel nth ska bal swe,kie swe
pru,false,,,ber bal lvn,ber sil war lvn
sil,false,,,,ber mun boh gal war pru
nwy,true,,,nth nwg bar stp/nc ska swe,swe fin stp
swe,true,,,nwy ska den bal bot fin,nwy fin den
fin,false,,,swe bot stp/sc,nwy swe stp
stp/sc,true,Russia,Fleet,fin bot lvn,fin nwy mos lvn
stp/nc,true,Russia,Fleet,bar nwy,fin nwy mos lvn
lvn,false,,,stp/sc bot bal pru,stp mos war pru
mos,true,Russia,Army,,stp lvn war ukr sev
war,true,Russia,Army,,pru sil gal ukr mos lvn
ukr,false,,,,war gal rum sev mos
sev,true,Russia,Fleet,rum bla arm,ukr mos arm rum
boh,false,,,,mun sil gal vie tyr
tyr,false,,,,mun boh vie tri ven pie
vie,true,Austria,Army,,boh gal bud tri tyr
gal,false,,,,boh sil war ukr rum bud vie
bud,true,Austria,Army,,vie gal rum ser tri
tri,true,Austria,Fleet,ven adr alb,tyr vie bud ser alb ven
ser,true,,,,bud rum bul gre alb tri
alb,false,,,tri adr ion gre,tri ser gre
gre,true,,,alb ion aeg bul/sc,alb ser bul
bul/sc,true,,,gre aeg con,ser rum con gre
bul/ec,true,,,rum bla con,ser rum con gre
rum,true,,,sev bla bul/ec,bud gal ukr sev bul ser
con,true,Turkey,Army,bul/ec bul/sc bla ank aeg smy,bul ank smy
ank,true,Turkey,Fleet,con bla arm,con smy arm
smy,true,Turkey,Army,con aeg eas syr,con ank arm syr
arm,false,,,ank bla sev,ank smy syr sev
syr,false,,,smy eas,smy arm
";

fn game() -> Stpsyr {
    Stpsyr::new(STANDARD).unwrap()
}

fn empty_board() -> Stpsyr {
    let mut s = game();
    for r in s.map.iter_mut() {
        r.unit = None;
    }
    s
}

fn put(s: &mut Stpsyr, at: &str, power: &str, unit_type: UnitType) {
    let at = Province::from(at);
    let k = s.region_index(&at).unwrap();
    s.map[k].unit = Some(Unit { owner: Power::from(power), unit_type });
    if at.coast.is_some() {
        s.map[k].province.coast = at.coast;
    }
}

fn idx(s: &Stpsyr, at: &str) -> usize {
    s.region_index(&Province::from(at)).unwrap()
}

fn unit_text(s: &Stpsyr, at: &str) -> String {
    s.get_unit(&Province::from(at)).map_or(String::from("empty"), |u| u.label())
}

fn units_on_board(s: &Stpsyr) -> usize {
    s.map.iter().filter(|r| r.unit.is_some()).count()
}

fn texts(v: &Vec<Vec<char>>) -> Vec<String> {
    v.iter().map(|w| w.iter().collect()).collect()
}

fn words(line: &str) -> Vec<String> {
    texts(&read_words(&chars_of(line)))
}

fn order(s: &mut Stpsyr, power: &str, line: &str) {
    s.parse(&Power::from(power), line.to_string());
}

fn board(s: &Stpsyr) -> Vec<String> {
    s.map.iter().map(|r| r.label()).collect()
}

// ---- texts ----

#[test]
fn province_from_text() {
    let p = Province::from("stp/sc");
    assert_eq!(p.name, "stp");
    assert_eq!(p.coast, Some('s'));
    assert_eq!(p.from_coast, None);
    let q = Province::from("syr");
    assert_eq!(q.name, "syr");
    assert_eq!(q.coast, None);
    let r = Province::from(String::from("bul/"));
    assert_eq!(r.name, "bul");
    assert_eq!(r.coast, None);
    let t = Province::from("spa/north");
    assert_eq!(t.name, "spa");
    assert_eq!(t.coast, Some('n'));
}

#[test]
fn provinces_compare_by_name() {
    assert!(Province::from("stp/sc") == Province::from("stp/nc"));
    assert!(Province::from("stp") != Province::from("sev"));
    assert!(Province::from("stp/sc").coast_eq(&Province::from("stp/sc")));
    assert!(!Province::from("stp/sc").coast_eq(&Province::from("stp/nc")));
    assert!(!Province::from("stp/sc").coast_eq(&Province::from("sev/sc")));
    assert!(Province::from("Stp") != Province::from("stp"));
}

#[test]
fn powers_compare_without_case() {
    assert!(Power::from("ITALY") == Power::from("italy"));
    assert!(Power::from("Italy").same(&Power::from(String::from("iTaLy"))));
    assert!(Power::from("Italy") != Power::from("France"));
    assert_eq!(Power::from("Italy").name, "Italy");
}

#[test]
fn labels() {
    let u = Unit { owner: Power::from("Italy"), unit_type: UnitType::Army };
    assert_eq!(u.label(), "Army Italy");
    let f = Unit { owner: Power::from("Russia"), unit_type: UnitType::Fleet };
    assert_eq!(f.label(), "Fleet Russia");
    assert_eq!(Province::from("stp/sc").label(), "stp/sc");
    assert_eq!(Province::from("syr").label(), "syr");
    let s = game();
    let bot = s.get_region(&Province::from("bot")).unwrap();
    assert_eq!(bot.fleet_borders[2].label(), "stp/sc");
    let stp = s.get_region(&Province::from("stp")).unwrap();
    assert_eq!(stp.fleet_borders[4].label(), "nwy [from nc]");
    assert_eq!(stp.label(), "stp/sc* (Russia) [Fleet Russia]");
    assert_eq!(bot.label(), "bot");
    assert_eq!(s.get_region(&Province::from("tun")).unwrap().label(), "tun*");
}

#[test]
fn colours() {
    let s = game();
    let colour = |at: &str| s.get_region(&Province::from(at)).unwrap().colour();
    assert_eq!(colour("nth"), "c5dfea");
    assert_eq!(colour("mos"), "a87e9f");
    assert_eq!(colour("vie"), "c48f85");
    assert_eq!(colour("con"), "eaeaaf");
    assert_eq!(colour("rom"), "a4c499");
    assert_eq!(colour("par"), "79afc6");
    assert_eq!(colour("ber"), "a08a75");
    assert_eq!(colour("lon"), "efc4e4");
    assert_eq!(colour("tun"), "e2c69e");
}

#[test]
fn white_space() {
    for c in [' ', '\t', '\n', '\r', '\u{b}', '\u{c}', '\u{85}', '\u{a0}', '\u{2003}', '\u{3000}'] {
        assert!(space(c));
        assert!(c.is_whitespace());
    }
    for c in ['a', '/', '0', '\u{200b}', '\u{feff}'] {
        assert!(!space(c));
        assert!(!c.is_whitespace());
    }
    let mut n = 0;
    for c in '\u{0}'..='\u{ffff}' {
        assert_eq!(space(c), c.is_whitespace());
        if space(c) {
            n += 1;
        }
    }
    assert_eq!(n, 25);
    assert_eq!(texts(&split_words(&chars_of("  bar  stp/nc\tnwy "))), vec!["bar", "stp/nc", "nwy"]);
    assert!(split_words(&chars_of("   ")).is_empty());
    assert!(split_words(&chars_of("")).is_empty());
}

#[test]
fn words_of_a_line() {
    assert_eq!(words("A Par-Bur"), vec!["par", "bur"]);
    // a piece counts as a word from three bytes on
    assert_eq!(words("A \u{e9}\u{e9} - Bur"), vec!["\u{e9}\u{e9}", "bur"]);
    assert_eq!(words("A pa - Bur"), vec!["bur"]);
    assert_eq!(words("F Nth-Nwy"), vec!["nth", "nwy"]);
    assert_eq!(words("A Par H"), vec!["par"]);
    assert_eq!(words("A Par holds"), vec!["par"]);
    assert_eq!(words("A Par S A Mar-Bur"), vec!["par", "s", "mar", "bur"]);
    assert_eq!(words("A Par supports A Mar-Bur"), vec!["par", "s", "mar", "bur"]);
    assert_eq!(words("F Nth C A Lon-Bel"), vec!["nth", "c", "lon", "bel"]);
    assert_eq!(words("F Nth convoys A Lon-Bel"), vec!["nth", "c", "lon", "bel"]);
    assert_eq!(words("A Lon-Bel VC"), vec!["lon", "bel", "c"]);
    assert_eq!(words("A Lon - Bel via convoy"), vec!["lon", "bel", "c"]);
    assert_eq!(words("army par moves bur"), vec!["par", "bur"]);
    assert_eq!(words("F mao - spa/sc"), vec!["mao", "spa/sc"]);
    assert_eq!(words("F mao - spa (south coast)"), vec!["mao", "spa/south"]);
    assert_eq!(words("F mao - spa(sc)"), vec!["mao", "spa/sc"]);
    assert_eq!(words("fleet bot to the north"), vec!["bot", "nc"]);
    assert_eq!(words("east west south"), vec!["ec", "wc", "sc"]);
    assert!(words("").is_empty());
    assert!(words("A 12 - 34").is_empty());
}

fn spelled(line: &str) -> Option<(String, Action)> {
    read_order(&read_words(&chars_of(line))).map(|(p, a)| (p.label(), a))
}

#[test]
fn order_of_a_line() {
    match spelled("A Par-Bur") {
        Some((p, Action::Move { to, convoyed })) => {
            assert_eq!(p, "par");
            assert_eq!(to.label(), "bur");
            assert!(!convoyed);
        }
        _ => panic!("expected a move"),
    }
    match spelled("A Lon-Bel VC") {
        Some((p, Action::Move { to, convoyed })) => {
            assert_eq!(p, "lon");
            assert_eq!(to.label(), "bel");
            assert!(convoyed);
        }
        _ => panic!("expected a move by convoy"),
    }
    match spelled("F mao - spa/sc") {
        Some((_, Action::Move { to, convoyed })) => {
            assert_eq!(to.label(), "spa/sc");
            assert!(!convoyed);
        }
        _ => panic!("expected a move"),
    }
    match spelled("A Par S A Mar-Bur") {
        Some((p, Action::SupportMove { from, to })) => {
            assert_eq!(p, "par");
            assert_eq!(from.label(), "mar");
            assert_eq!(to.label(), "bur");
        }
        _ => panic!("expected a support for a move"),
    }
    match spelled("A Par S Mar") {
        Some((p, Action::SupportHold { to })) => {
            assert_eq!(p, "par");
            assert_eq!(to.label(), "mar");
        }
        _ => panic!("expected a support to hold"),
    }
    match spelled("F Nth C A Lon-Bel") {
        Some((p, Action::Convoy { from, to })) => {
            assert_eq!(p, "nth");
            assert_eq!(from.label(), "lon");
            assert_eq!(to.label(), "bel");
        }
        _ => panic!("expected a convoy"),
    }
    assert!(spelled("A Par H").is_none());
    assert!(spelled("A Par").is_none());
    assert!(spelled("").is_none());
    assert!(spelled("A Par S").is_none());
    assert!(spelled("F Nth C").is_none());
    assert!(spelled("F Nth C Lon").is_none());
}

#[test]
fn orders_read_back() {
    let read = |line: &str| -> Order {
        let (province, action) = read_order(&read_words(&chars_of(line))).unwrap();
        Order {
            owner: Power::from("France"),
            province,
            action,
            resolution: false,
            state: OrderState::UNRESOLVED,
            id: 0,
        }
    };
    let cases = [
        ("A Par-Bur", "par - bur"),
        ("A Lon-Bel VC", "lon - bel vc"),
        ("F mao - spa (south coast)", "mao - spa/sc"),
        ("F STP/NC - Bar", "stp/nc - bar"),
        ("A Par S A Mar-Bur", "par s mar - bur"),
        ("A Par supports Mar", "par s mar"),
        ("F Nth convoys A Lon-Bel", "nth c lon - bel"),
    ];
    for (line, canonical) in cases {
        let first = read(line);
        assert_eq!(first.label(), canonical);
        let second = read(&first.label());
        assert_eq!(second.label(), canonical);
        assert_eq!(
            format!("{:?} {:?}", first.province, first.action),
            format!("{:?} {:?}", second.province, second.action)
        );
    }
    let hold = Order {
        owner: Power::from("France"),
        province: Province::from("par"),
        action: Action::Hold,
        resolution: false,
        state: OrderState::UNRESOLVED,
        id: 0,
    };
    assert_eq!(hold.label(), "par h");
}

#[test]
fn orders_of_a_text() {
    let list = read_orders("\n  F Nap-ION\r\n  A Rom-Ven\n  A Ven H\n\n  A Ven-Tyr");
    assert_eq!(list.len(), 3);
    assert_eq!(list[0].0.label(), "nap");
    assert_eq!(list[1].0.label(), "rom");
    assert_eq!(list[2].0.label(), "ven");
    assert!(read_orders("").is_empty());
}

#[test]
fn parse_submits_in_order() {
    let mut s = game();
    order(&mut s, "Italy", "F Nap-ION\n A Rom-Ven\n A Ven-Tyr\n A Tri-Tyr");
    assert_eq!(s.orders.len(), 3);
    for (i, o) in s.orders.iter().enumerate() {
        assert_eq!(o.id, i);
        assert_eq!(o.state, OrderState::UNRESOLVED);
        assert!(!o.resolution);
        assert_eq!(o.owner.name, "Italy");
    }
    assert_eq!(s.orders[0].province.name, "nap");
    assert_eq!(s.orders[2].province.name, "ven");
}

// ---- the map ----

#[test]
fn map_errors() {
    assert_eq!(Stpsyr::new("a,b\n1,2,3\n").err(), Some(MapError::Malformed));
    assert_eq!(Stpsyr::new("a,b,c,d,e\nx,true,,,\n").err(), Some(MapError::BadRow));
    assert_eq!(Stpsyr::new("a,b,c,d,e,f\nx,maybe,,,,\n").err(), Some(MapError::BadRow));
    assert_eq!(
        Stpsyr::new("a,b,c,d,e,f\nnap,true,Italy,Tank,,\n").err(),
        Some(MapError::UnknownUnitType)
    );
    assert_eq!(
        Stpsyr::new("a,b,c,d,e,f\nnap,true,,Army,,\n").err(),
        Some(MapError::UnitWithoutOwner)
    );
    assert_eq!(
        Stpsyr::new("a,b,c,d,e,f\nnap,true,,,,\nrom,true,,Army,,\n").err(),
        Some(MapError::UnitWithoutOwner)
    );
}

#[test]
fn map_rows() {
    let s = Stpsyr::new(
        "name,sc,owner,unit,fleet,army\n\
         aaa/nc,true,Red,Fleet,bbb  ccc/sc,bbb\n\
         bbb,false,,,aaa/nc ccc/sc,aaa\n\
         aaa/sc,false,Blue,Tank,ccc/nc,\n\
         ccc/sc,false,Blue,,aaa/nc bbb,\n",
    )
    .unwrap();
    assert_eq!(s.map.len(), 3);
    let a = &s.map[0];
    assert_eq!(a.province.label(), "aaa/nc");
    assert!(a.sc);
    assert_eq!(a.owner.as_ref().unwrap().name, "Red");
    assert_eq!(a.home_power.as_ref().unwrap().name, "Red");
    assert_eq!(a.unit.as_ref().unwrap().label(), "Fleet Red");
    let fleet: Vec<String> = a.fleet_borders.iter().map(|p| p.label()).collect();
    assert_eq!(fleet, vec!["bbb [from nc]", "ccc/sc [from nc]", "ccc/nc [from sc]"]);
    let army: Vec<String> = a.army_borders.iter().map(|p| p.label()).collect();
    assert_eq!(army, vec!["bbb"]);
    let b = &s.map[1];
    assert!(!b.sc);
    assert!(b.owner.is_none() && b.home_power.is_none() && b.unit.is_none());
    assert_eq!(b.fleet_borders[0].label(), "aaa/nc");
    let c = &s.map[2];
    assert_eq!(c.owner.as_ref().unwrap().name, "Blue");
    assert!(c.unit.is_none());
    assert!(c.army_borders.is_empty());
    assert!(s.orders.is_empty() && s.dislodged.is_empty() && s.contested.is_empty());
}

#[test]
fn map_from_rows() {
    let rows = vec![
        vec!["x".to_string(), "true".to_string(), "".to_string(), "".to_string(), "y".to_string(), "y".to_string()],
        vec!["y".to_string(), "false".to_string(), "P".to_string(), "Army".to_string(), "x".to_string(), "x".to_string()],
    ];
    let map = build_map(&rows).unwrap();
    assert_eq!(map.len(), 2);
    assert_eq!(map[1].label(), "y (P) [Army P]");
    let short = vec![vec!["x".to_string()]];
    assert_eq!(build_map(&short).err(), Some(MapError::BadRow));
    assert!(build_map(&Vec::new()).unwrap().is_empty());
}

#[test]
fn lookups() {
    let s = game();
    assert_eq!(s.region_index(&Province::from("nao")), Some(0));
    assert_eq!(s.region_index(&Province::from("syr")), Some(74));
    assert_eq!(s.region_index(&Province::from("xyz")), None);
    assert!(s.get_region(&Province::from("xyz")).is_none());
    assert_eq!(s.get_region(&Province::from("bul/sc")).unwrap().province.name, "bul");
    assert_eq!(unit_text(&s, "stp/nc"), "Fleet Russia");
    assert_eq!(unit_text(&s, "par"), "Army France");
    assert_eq!(unit_text(&s, "bur"), "empty");
    assert_eq!(unit_text(&s, "xyz"), "empty");
}

#[test]
fn census() {
    let s = game();
    let names = |v: &Vec<(Power, usize)>| -> Vec<(String, usize)> {
        v.iter().map(|(p, n)| (p.name.clone(), *n)).collect()
    };
    let expected: Vec<(String, usize)> = [
        ("England", 3),
        ("France", 3),
        ("Italy", 3),
        ("Germany", 3),
        ("Russia", 4),
        ("Austria", 3),
        ("Turkey", 3),
    ]
    .iter()
    .map(|(p, n)| (p.to_string(), *n))
    .collect();
    assert_eq!(names(&s.sc_counts()), expected);
    assert_eq!(names(&s.unit_counts()), expected);
    assert!(!s.uneven());
    let mut t = game();
    put(&mut t, "tun", "italy", UnitType::Army);
    // the census names a power as the map first shows it
    assert_eq!(names(&t.unit_counts())[2], ("italy".to_string(), 4));
    assert_eq!(names(&t.sc_counts())[2], ("Italy".to_string(), 3));
    assert!(t.uneven());
    assert!(empty_board().unit_counts().is_empty());
}

// ---- submitting orders ----

fn mv(to: &str, convoyed: bool) -> Action {
    Action::Move { to: Province::from(to), convoyed }
}

fn submit(s: &mut Stpsyr, power: &str, at: &str, action: Action) -> bool {
    let before = s.orders.len();
    s.add_order(Power::from(power), Province::from(at), action);
    s.orders.len() == before + 1
}

#[test]
fn orders_that_are_dropped() {
    let mut s = game();
    // no unit there
    assert!(!submit(&mut s, "Italy", "tyr", mv("ven", false)));
    // no such province
    assert!(!submit(&mut s, "Italy", "xyz", Action::Hold));
    // not the power's unit
    assert!(!submit(&mut s, "Austria", "ven", mv("tyr", false)));
    // a move to where the unit stands
    assert!(!submit(&mut s, "Italy", "ven", mv("ven", false)));
    assert!(!submit(&mut s, "Italy", "ven", mv("ven", true)));
    // a fleet cannot be convoyed
    assert!(!submit(&mut s, "Italy", "nap", mv("tun", true)));
    // not a neighbour
    assert!(!submit(&mut s, "Italy", "ven", mv("mun", false)));
    // an army does not go to sea
    assert!(!submit(&mut s, "Italy", "ven", mv("adr", false)));
    // a fleet does not go inland
    assert!(!submit(&mut s, "Austria", "tri", mv("tyr", false)));
    // a fleet needs the coast it goes to
    assert!(!submit(&mut s, "Russia", "stp", mv("bar", false)));
    // supports
    assert!(!submit(&mut s, "Italy", "ven", Action::SupportHold { to: Province::from("mun") }));
    assert!(!submit(&mut s, "Italy", "ven", Action::SupportHold { to: Province::from("ven") }));
    assert!(!submit(
        &mut s,
        "Italy",
        "ven",
        Action::SupportMove { from: Province::from("ven"), to: Province::from("tyr") }
    ));
    assert!(!submit(
        &mut s,
        "Italy",
        "ven",
        Action::SupportMove { from: Province::from("mun"), to: Province::from("ven") }
    ));
    assert!(!submit(
        &mut s,
        "Italy",
        "ven",
        Action::SupportMove { from: Province::from("tyr"), to: Province::from("tyr") }
    ));
    assert!(!submit(
        &mut s,
        "Italy",
        "ven",
        Action::SupportMove { from: Province::from("vie"), to: Province::from("boh") }
    ));
    assert!(s.orders.is_empty());
}

#[test]
fn orders_that_are_taken() {
    let mut s = game();
    assert!(submit(&mut s, "italy", "ven", mv("tyr", false)));
    // one order for each unit
    assert!(!submit(&mut s, "Italy", "ven", Action::Hold));
    assert!(submit(&mut s, "Italy", "rom", Action::SupportHold { to: Province::from("ven") }));
    assert!(submit(&mut s, "ITALY", "nap", Action::Convoy { from: Province::from("rom"), to: Province::from("tun") }));
    assert!(submit(&mut s, "Austria", "vie", Action::SupportMove { from: Province::from("ven"), to: Province::from("tyr") }));
    assert!(submit(&mut s, "Austria", "bud", Action::Hold));
    assert!(submit(&mut s, "France", "mar", mv("tun", true)));
    // an army may be ordered to go by convoy to a province that is not on the map
    assert!(submit(&mut s, "France", "par", mv("xyz", true)));
    assert!(submit(&mut s, "Russia", "stp", mv("bot", false)));
    assert!(submit(&mut s, "Germany", "kie", mv("den", false)));
    assert_eq!(s.orders.len(), 9);
    assert_eq!(s.resolve(6), Ok(false));
    for (i, o) in s.orders.iter().enumerate() {
        if i == 6 {
            assert_eq!(o.state, OrderState::RESOLVED);
            continue;
        }
        assert_eq!(o.id, i);
        assert_eq!(o.state, OrderState::UNRESOLVED);
        assert!(!o.resolution);
    }
    assert!(s.accepts(&Power::from("England"), &Province::from("lon"), &mv("nth", false)));
    assert!(!s.accepts(&Power::from("England"), &Province::from("lon"), &mv("bel", false)));
    assert!(s.has_order(&Province::from("ven")));
    assert!(!s.has_order(&Province::from("lon")));
}

#[test]
fn picking_orders() {
    let mut s = game();
    order(&mut s, "Italy", "A ven - tyr\n A rom S ven");
    order(&mut s, "Austria", "A vie - tyr\n F tri - ven\n A bud S vie - tyr");
    order(&mut s, "Germany", "A mun S ven - tyr");
    // bud does not border on tyr, so its support is dropped
    assert_eq!(s.orders.len(), 5);
    let tyr = Province::from("tyr");
    let ven = Province::from("ven");
    assert_eq!(s.select(&Pick::MovesTo(tyr.clone())), vec![0, 2]);
    assert_eq!(s.select(&Pick::MovesFrom(ven.clone())), vec![0]);
    assert_eq!(s.find(&Pick::MovesFrom(Province::from("rom"))), None);
    assert_eq!(s.find(&Pick::MovesTo(ven.clone())), Some(3));
    assert_eq!(s.select(&Pick::Contests { to: tyr.clone(), besides: ven.clone() }), vec![2]);
    assert_eq!(s.select(&Pick::SupportsHold(ven.clone())), vec![1]);
    let supports = |against: Option<Power>| Pick::SupportsMove { from: ven.clone(), to: tyr.clone(), against };
    assert_eq!(s.select(&supports(None)), vec![4]);
    assert_eq!(s.select(&supports(Some(Power::from("Austria")))), vec![4]);
    assert!(s.select(&supports(Some(Power::from("GERMANY")))).is_empty());
    assert_eq!(s.select(&Pick::HeadOn { attacker: ven.clone(), target: Province::from("tri") }), vec![3]);
    assert_eq!(s.select(&Pick::HeadOn { attacker: tyr.clone(), target: ven.clone() }), vec![0]);
    assert_eq!(s.select(&Pick::HeadOn { attacker: Province::from("rom"), target: ven.clone() }), Vec::<usize>::new());
    assert_eq!(s.select(&Pick::Leaves { at: Province::from("tri"), attacker: ven.clone(), convoyed: false }), Vec::<usize>::new());
    assert_eq!(s.select(&Pick::Leaves { at: Province::from("tri"), attacker: tyr.clone(), convoyed: false }), vec![3]);
    assert_eq!(s.select(&Pick::Leaves { at: Province::from("tri"), attacker: ven.clone(), convoyed: true }), vec![3]);
}

// ---- strengths ----

#[test]
fn hold_strengths() {
    let mut s = game();
    put(&mut s, "tyr", "Italy", UnitType::Army);
    put(&mut s, "pie", "Italy", UnitType::Army);
    order(&mut s, "Italy", "A tyr S ven\n A pie S ven\n A rom - ven");
    order(&mut s, "Austria", "A vie - boh\n A bud - vie");
    order(&mut s, "Germany", "A mun - boh");
    let d = s.depth();
    assert_eq!(d, 6 * 6 + 2 * 6 + 2);
    // an empty province
    assert_eq!(s.hold_strength(&Province::from("boh"), d), Ok(0));
    // a province that is not on the map
    assert_eq!(s.hold_strength(&Province::from("xyz"), d), Ok(0));
    // a unit without orders and two supports
    assert_eq!(s.hold_strength(&Province::from("ven"), d), Ok(3));
    // a unit without orders and without support
    assert_eq!(s.hold_strength(&Province::from("par"), d), Ok(1));
    // a unit whose move fails
    assert_eq!(s.hold_strength(&Province::from("vie"), d), Ok(1));
    assert_eq!(s.hold_strength(&Province::from("rom"), d), Ok(1));
    // a unit whose move succeeds
    let mut t = game();
    order(&mut t, "Austria", "A vie - boh");
    assert_eq!(t.hold_strength(&Province::from("vie"), t.depth()), Ok(0));
}

#[test]
fn move_strengths() {
    let mut s = game();
    put(&mut s, "tyr", "Italy", UnitType::Army);
    put(&mut s, "boh", "Germany", UnitType::Army);
    order(&mut s, "Italy", "A ven - tri\n A tyr S ven - tri");
    order(&mut s, "Austria", "F tri - ven\n A bud S ven - tri");
    order(&mut s, "Germany", "A boh - vie");
    assert_eq!(s.orders.len(), 5);
    let d = s.depth();
    assert_eq!(s.defend_strength(&Province::from("ven"), d), Ok(3));
    assert_eq!(s.defend_strength(&Province::from("tri"), d), Ok(1));
    assert_eq!(s.prevent_strength(&Province::from("boh"), d), Ok(1));
    // the support of Austria does not count against an Austrian unit
    assert_eq!(s.attack_strength(&Province::from("ven"), d), Ok(2));
    assert_eq!(s.attack_strength(&Province::from("tri"), d), Ok(1));
    // the fleet loses the battle head to head, so it keeps nobody out of ven
    assert_eq!(s.prevent_strength(&Province::from("tri"), d), Ok(0));
    assert_eq!(s.prevent_strength(&Province::from("ven"), d), Ok(3));
    assert_eq!(s.resolve(0), Ok(true));
    assert_eq!(s.resolve(2), Ok(false));
    assert_eq!(s.resolve(0), Ok(true));
    // equal strengths: nobody gets through
    let mut t = game();
    put(&mut t, "tyr", "Italy", UnitType::Army);
    order(&mut t, "Italy", "A ven - tri\n A tyr S ven - tri");
    order(&mut t, "Austria", "F tri - ven\n A vie S tri");
    let d = t.depth();
    assert_eq!(t.attack_strength(&Province::from("ven"), d), Ok(2));
    assert_eq!(t.defend_strength(&Province::from("tri"), d), Ok(1));
    assert_eq!(t.resolve(0), Ok(true));
    let mut u = game();
    put(&mut u, "tyr", "Italy", UnitType::Army);
    order(&mut u, "Italy", "A ven - tri\n A tyr S ven - tri");
    order(&mut u, "Austria", "A vie S tri");
    let d = u.depth();
    assert_eq!(u.attack_strength(&Province::from("ven"), d), Ok(2));
    assert_eq!(u.hold_strength(&Province::from("tri"), d), Ok(2));
    assert_eq!(u.resolve(0), Ok(false));
}

#[test]
fn strength_without_a_route() {
    let mut s = game();
    order(&mut s, "France", "A mar - tun via convoy");
    let d = s.depth();
    assert_eq!(s.attack_strength(&Province::from("mar"), d), Ok(0));
    assert_eq!(s.prevent_strength(&Province::from("mar"), d), Ok(0));
    assert_eq!(s.convoy_paths(0, d), Ok(Vec::new()));
    assert_eq!(s.resolve(0), Ok(false));
}

#[test]
fn depth_of_a_phase() {
    let mut s = game();
    assert_eq!(s.depth(), 2);
    order(&mut s, "Italy", "A ven - tyr\n A rom - ven\n F nap - ion");
    assert_eq!(s.depth(), 17);
}

// ---- convoy routes ----

#[test]
fn convoy_routes() {
    let mut s = empty_board();
    put(&mut s, "bul", "Turkey", UnitType::Army);
    put(&mut s, "aeg", "Turkey", UnitType::Fleet);
    put(&mut s, "ion", "Turkey", UnitType::Fleet);
    put(&mut s, "adr", "Turkey", UnitType::Fleet);
    put(&mut s, "eas", "Turkey", UnitType::Fleet);
    order(&mut s, "Turkey", "A bul - tri VC\n F aeg C bul - tri\n F ion C bul - tri\n F adr C bul - tri\n F eas C bul - smy");
    let found = s.find_paths(vec![idx(&s, "bul")], &Province::from("tri"));
    assert_eq!(found, vec![vec![idx(&s, "bul"), idx(&s, "aeg"), idx(&s, "ion"), idx(&s, "adr")]]);
    // without the fleet in the Adriatic the chain ends at the Ionian Sea
    assert!(s.find_paths(vec![idx(&s, "bul")], &Province::from("nap")).is_empty());
    // a fleet with a convoy order for another move does not help
    assert!(s.find_paths(vec![idx(&s, "bul")], &Province::from("smy")).is_empty());
    let d = s.depth();
    assert_eq!(s.convoy_paths(0, d), Ok(found));
    let by_aeg = vec![idx(&s, "bul"), idx(&s, "aeg")];
    let by_eas = vec![idx(&s, "bul"), idx(&s, "eas")];
    assert_eq!(s.path_holds(0, &by_aeg, d), Ok(true));
    assert_eq!(s.path_holds(0, &by_eas, d), Ok(false));
}

#[test]
fn two_routes() {
    let mut s = empty_board();
    put(&mut s, "lon", "England", UnitType::Army);
    put(&mut s, "nth", "England", UnitType::Fleet);
    put(&mut s, "eng", "England", UnitType::Fleet);
    put(&mut s, "hol", "Germany", UnitType::Fleet);
    put(&mut s, "hel", "Germany", UnitType::Fleet);
    order(&mut s, "England", "A lon - bel VC\n F nth C lon - bel\n F eng C lon - bel");
    order(&mut s, "Germany", "F hol S hel - nth\n F hel - nth");
    let all = s.find_paths(vec![idx(&s, "lon")], &Province::from("bel"));
    assert_eq!(all, vec![vec![idx(&s, "lon"), idx(&s, "nth")], vec![idx(&s, "lon"), idx(&s, "eng")]]);
    // the fleet in the North Sea is dislodged, the one in the Channel carries the army
    let d = s.depth();
    let by_eng = vec![idx(&s, "lon"), idx(&s, "eng")];
    assert_eq!(s.convoy_paths(0, d), Ok(vec![by_eng]));
    s.apply_orders().unwrap();
    assert_eq!(unit_text(&s, "bel"), "Army England");
    assert_eq!(unit_text(&s, "nth"), "Fleet Germany");
}

// ---- the resolver ----

fn bare(action: Action, at: &str, id: usize, state: OrderState) -> Order {
    Order {
        owner: Power::from("Italy"),
        province: Province::from(at),
        action,
        resolution: false,
        state,
        id,
    }
}

#[test]
fn backup_rule_for_moves() {
    let mut s = game();
    s.orders = vec![
        bare(mv("tyr", false), "ven", 0, OrderState::GUESSING),
        bare(Action::Hold, "rom", 1, OrderState::GUESSING),
        bare(mv("rom", false), "nap", 2, OrderState::GUESSING),
    ];
    s.dependencies = vec![1, 0, 2];
    assert_eq!(s.circle(1), (true, false));
    s.backup_rule(1);
    assert_eq!(s.dependencies, vec![1]);
    assert_eq!(s.orders[0].state, OrderState::RESOLVED);
    assert!(s.orders[0].resolution);
    assert_eq!(s.orders[2].state, OrderState::RESOLVED);
    assert!(s.orders[2].resolution);
    assert_eq!(s.orders[1].state, OrderState::GUESSING);
}

#[test]
fn backup_rule_for_convoys() {
    let mut s = game();
    s.orders = vec![
        bare(mv("tun", true), "rom", 0, OrderState::GUESSING),
        bare(Action::Convoy { from: Province::from("rom"), to: Province::from("tun") }, "nap", 1, OrderState::GUESSING),
        bare(Action::SupportHold { to: Province::from("rom") }, "ven", 2, OrderState::GUESSING),
    ];
    s.orders[1].resolution = true;
    s.orders[2].resolution = true;
    s.dependencies = vec![0, 1, 2];
    assert_eq!(s.circle(0), (false, true));
    s.backup_rule(0);
    assert!(s.dependencies.is_empty());
    assert_eq!(s.orders[0].state, OrderState::UNRESOLVED);
    assert_eq!(s.orders[1].state, OrderState::RESOLVED);
    assert!(!s.orders[1].resolution);
    assert_eq!(s.orders[2].state, OrderState::UNRESOLVED);
    assert!(s.orders[2].resolution);
}

#[test]
fn backup_rule_for_other_circles() {
    let mut s = game();
    s.orders = vec![
        bare(mv("tyr", false), "ven", 0, OrderState::GUESSING),
        bare(Action::SupportHold { to: Province::from("ven") }, "rom", 1, OrderState::GUESSING),
    ];
    s.dependencies = vec![0, 1];
    assert_eq!(s.circle(0), (false, false));
    assert_eq!(s.circle(1), (false, false));
    // an empty circle counts as one of moves
    assert_eq!(s.circle(2), (true, false));
    s.backup_rule(2);
    assert_eq!(s.dependencies, vec![0, 1]);
    assert_eq!(s.orders[0].state, OrderState::GUESSING);
}

#[test]
fn unknown_paradox() {
    // a circular movement that leans on a support which is itself only a guess
    let mut s = game();
    put(&mut s, "arm", "Turkey", UnitType::Army);
    order(&mut s, "Turkey", "F ank - con\n A con - smy\n A smy - ank\n A arm S smy - ank");
    assert_eq!(s.orders.len(), 4);
    s.orders[3].state = OrderState::GUESSING;
    assert_eq!(s.resolve(0), Err(AdjudicationError::UnknownParadox));
    assert_eq!(unit_text(&s, "ank"), "Fleet Turkey");
}

#[test]
fn move_off_the_map() {
    let table = "name,sc,owner,unit,fleet,army\n\
                 aaa,true,Red,Army,,zzz bbb\n\
                 bbb,false,,,,aaa\n";
    let mut s = Stpsyr::new(table).unwrap();
    order(&mut s, "Red", "A aaa - zzz");
    assert_eq!(s.orders.len(), 1);
    assert_eq!(s.resolve(0), Ok(true));
    assert!(!s.all_land());
    assert_eq!(s.apply_orders().err(), Some(AdjudicationError::MissingRegion));
    assert_eq!(unit_text(&s, "aaa"), "Army Red");
    assert_eq!(s.phase, Phase::SpringDiplomacy);
    assert_eq!(s.orders.len(), 1);
    let mut t = Stpsyr::new(table).unwrap();
    order(&mut t, "Red", "A aaa - bbb");
    assert!(t.all_land());
    t.apply_orders().unwrap();
    assert_eq!(unit_text(&t, "bbb"), "Army Red");
}

#[test]
fn draining() {
    let mut s = game();
    s.orders = vec![
        bare(Action::Hold, "ven", 0, OrderState::GUESSING),
        bare(Action::Hold, "rom", 1, OrderState::GUESSING),
        bare(Action::Hold, "nap", 2, OrderState::RESOLVED),
    ];
    s.orders[1].resolution = true;
    s.dependencies = vec![0, 1];
    s.drain(1);
    assert_eq!(s.dependencies, vec![0]);
    assert_eq!(s.orders[0].state, OrderState::GUESSING);
    assert_eq!(s.orders[1].state, OrderState::UNRESOLVED);
    assert!(s.orders[1].resolution);
    assert_eq!(s.orders[2].state, OrderState::RESOLVED);
    s.mark(0, true, OrderState::RESOLVED);
    assert!(s.orders[0].resolution);
    assert_eq!(s.orders[0].state, OrderState::RESOLVED);
}

#[test]
fn guesses_are_noted() {
    let mut s = game();
    s.orders = vec![bare(mv("tyr", false), "ven", 0, OrderState::GUESSING)];
    s.orders[0].resolution = true;
    assert_eq!(s.resolve(0), Ok(true));
    assert_eq!(s.dependencies, vec![0]);
    assert_eq!(s.resolve(0), Ok(true));
    assert_eq!(s.dependencies, vec![0]);
    assert_eq!(s.orders[0].state, OrderState::GUESSING);
    assert!(!s.settled());
    assert_eq!(s.resolve_all(), Err(AdjudicationError::Unsettled));
    assert_eq!(s.apply_orders().err(), Some(AdjudicationError::Unsettled));
    assert_eq!(unit_text(&s, "ven"), "Army Italy");
    assert_eq!(s.phase, Phase::SpringDiplomacy);
}

#[test]
fn resolving_is_idempotent() {
    let mut s = game();
    order(&mut s, "Italy", "A ven - tyr");
    order(&mut s, "Austria", "A vie - tyr");
    assert_eq!(s.resolve(0), Ok(false));
    assert_eq!(s.orders[0].state, OrderState::RESOLVED);
    let marks: Vec<(bool, OrderState)> = s.orders.iter().map(|o| (o.resolution, o.state)).collect();
    assert_eq!(s.resolve(0), Ok(false));
    assert_eq!(s.resolve_within(0, 0), Ok(false));
    let again: Vec<(bool, OrderState)> = s.orders.iter().map(|o| (o.resolution, o.state)).collect();
    assert_eq!(marks, again);
    assert_eq!(s.resolve_all(), Ok(()));
    assert!(s.settled());
    assert!(s.dependencies.is_empty());
}

#[test]
fn too_deep() {
    let mut s = game();
    order(&mut s, "Turkey", "F ank - con\n A con - smy\n A smy - ank");
    assert_eq!(s.resolve_within(0, 0), Err(AdjudicationError::TooDeep));
    assert_eq!(s.resolve_within(0, 2), Err(AdjudicationError::TooDeep));
    let mut t = game();
    order(&mut t, "Turkey", "F ank - con\n A con - smy\n A smy - ank");
    assert_eq!(t.resolve_within(0, 3), Ok(true));
}

#[test]
fn hold_and_convoy_orders() {
    let mut s = empty_board();
    put(&mut s, "nth", "England", UnitType::Fleet);
    put(&mut s, "lon", "England", UnitType::Army);
    put(&mut s, "hel", "Germany", UnitType::Fleet);
    order(&mut s, "England", "F nth C lon - bel");
    s.add_order(Power::from("England"), Province::from("lon"), Action::Hold);
    order(&mut s, "Germany", "F hel - nth");
    let d = s.depth();
    assert_eq!(s.adjudicate(1, d), Ok(true));
    assert_eq!(s.adjudicate(0, d), Ok(true));
    assert_eq!(s.adjudicate(2, d), Ok(false));
}

#[test]
fn convoy_paradox() {
    let mut s = empty_board();
    put(&mut s, "lon", "England", UnitType::Fleet);
    put(&mut s, "wal", "England", UnitType::Fleet);
    put(&mut s, "bre", "France", UnitType::Army);
    put(&mut s, "eng", "France", UnitType::Fleet);
    order(&mut s, "England", "F lon S wal - eng\n F wal - eng");
    order(&mut s, "France", "A bre - lon VC\n F eng C bre - lon");
    let dislodged = s.apply_orders().unwrap();
    assert_eq!(dislodged.len(), 1);
    assert_eq!(dislodged[0].0.name, "eng");
    assert_eq!(dislodged[0].1.label(), "Fleet France");
    assert_eq!(unit_text(&s, "eng"), "Fleet England");
    assert_eq!(unit_text(&s, "bre"), "Army France");
    assert_eq!(unit_text(&s, "lon"), "Fleet England");
}

// ---- carrying out ----

#[test]
fn units_are_conserved() {
    let mut s = game();
    put(&mut s, "tyr", "Italy", UnitType::Army);
    let before = units_on_board(&s);
    order(&mut s, "Italy", "A ven - tri\n A tyr S ven - tri\n A rom - ven\n F nap - ion");
    order(&mut s, "Austria", "A vie - boh\n A bud - ser");
    order(&mut s, "Germany", "A mun - boh");
    order(&mut s, "Turkey", "F ank - con\n A con - smy\n A smy - ank");
    let dislodged = s.apply_orders().unwrap();
    assert_eq!(dislodged.len(), 1);
    assert_eq!(units_on_board(&s) + dislodged.len(), before);
    // a successful move empties its source unless another unit moves in
    assert_eq!(unit_text(&s, "rom"), "empty");
    assert_eq!(unit_text(&s, "bud"), "empty");
    assert_eq!(unit_text(&s, "nap"), "empty");
    assert_eq!(unit_text(&s, "ven"), "Army Italy");
    assert_eq!(unit_text(&s, "tri"), "Army Italy");
    assert_eq!(unit_text(&s, "con"), "Fleet Turkey");
    assert_eq!(unit_text(&s, "tyr"), "Army Italy");
    assert_eq!(unit_text(&s, "vie"), "Army Austria");
    assert_eq!(unit_text(&s, "mun"), "Army Germany");
    assert_eq!(unit_text(&s, "boh"), "empty");
}

#[test]
fn applying_resolved_orders() {
    let mut s = game();
    s.contested = vec![Province::from("boh")];
    s.orders = vec![
        bare(mv("tyr", false), "ven", 0, OrderState::RESOLVED),
        bare(mv("ven", false), "rom", 1, OrderState::RESOLVED),
        bare(mv("tri", false), "vie", 2, OrderState::RESOLVED),
        bare(mv("boh", false), "mun", 3, OrderState::RESOLVED),
        bare(mv("gal", false), "bud", 4, OrderState::RESOLVED),
        bare(mv("gal", false), "war", 5, OrderState::RESOLVED),
        bare(Action::Hold, "tri", 6, OrderState::RESOLVED),
    ];
    for i in [0, 1, 2, 6] {
        s.orders[i].resolution = true;
    }
    assert_eq!(s.arrivals_at(idx(&s, "tyr")), vec![0]);
    assert!(s.departs_from(idx(&s, "rom")));
    assert!(!s.departs_from(idx(&s, "mun")));
    s.apply_resolved();
    assert_eq!(unit_text(&s, "tyr"), "Army Italy");
    assert_eq!(unit_text(&s, "ven"), "Army Italy");
    assert_eq!(unit_text(&s, "rom"), "empty");
    assert_eq!(unit_text(&s, "tri"), "Army Austria");
    assert_eq!(unit_text(&s, "vie"), "empty");
    assert_eq!(unit_text(&s, "mun"), "Army Germany");
    assert_eq!(s.dislodged.len(), 1);
    assert_eq!(s.dislodged[0].0.name, "tri");
    assert_eq!(s.dislodged[0].1.label(), "Fleet Austria");
    let contested: Vec<String> = s.contested.iter().map(|p| p.label()).collect();
    assert_eq!(contested, vec!["boh", "gal"]);
    assert_eq!(s.orders.len(), 7);
    assert_eq!(s.phase, Phase::SpringDiplomacy);
}

#[test]
fn coast_of_arrival() {
    let mut s = empty_board();
    put(&mut s, "con", "Turkey", UnitType::Fleet);
    assert_eq!(s.get_region(&Province::from("bul")).unwrap().province.coast, Some('s'));
    order(&mut s, "Turkey", "F con - bul/ec");
    s.apply_orders().unwrap();
    assert_eq!(unit_text(&s, "bul"), "Fleet Turkey");
    assert_eq!(s.get_region(&Province::from("bul")).unwrap().province.coast, Some('e'));
    // from the east coast the fleet reaches the Black Sea, not the Aegean
    order(&mut s, "Turkey", "F bul - aeg");
    assert!(s.orders.is_empty());
    order(&mut s, "Turkey", "F bul - bla");
    assert_eq!(s.orders.len(), 1);
    s.apply_orders().unwrap();
    assert_eq!(unit_text(&s, "bla"), "Fleet Turkey");
    // an army that arrives names no coast and leaves the coast as it is
    put(&mut s, "ser", "Turkey", UnitType::Army);
    order(&mut s, "Turkey", "A ser - bul");
    s.apply_orders().unwrap();
    assert_eq!(s.get_region(&Province::from("bul")).unwrap().province.coast, Some('e'));
    assert_eq!(s.get_region(&Province::from("con")).unwrap().province.coast, None);
}

#[test]
fn same_game_same_outcome() {
    let play = || {
        let mut s = game();
        put(&mut s, "tyr", "Italy", UnitType::Army);
        order(&mut s, "Italy", "A ven - tri\n A tyr S ven - tri\n F nap - ion");
        order(&mut s, "Austria", "F tri - alb\n A vie - tyr\n A bud S tri");
        order(&mut s, "Turkey", "F ank - con\n A con - smy\n A smy - ank");
        let dislodged = s.apply_orders().unwrap();
        let list: Vec<String> = dislodged.iter().map(|(p, u)| format!("{} {}", p.label(), u.label())).collect();
        (board(&s), list, s.phase)
    };
    assert_eq!(play(), play());
}

// ---- phases ----

#[test]
fn phases_of_a_year() {
    let mut s = game();
    s.next_phase();
    assert_eq!(s.phase, Phase::FallDiplomacy);
    assert_eq!(s.year, 1901);
    s.next_phase();
    // fall leads straight to the spring of the next year
    assert_eq!(s.phase, Phase::SpringDiplomacy);
    assert_eq!(s.year, 1902);
    s.dislodged.push((Province::from("tyr"), Unit { owner: Power::from("Italy"), unit_type: UnitType::Army }));
    s.next_phase();
    assert_eq!(s.phase, Phase::SpringRetreats);
    s.next_phase();
    assert_eq!(s.phase, Phase::FallDiplomacy);
    s.next_phase();
    assert_eq!(s.phase, Phase::FallRetreats);
    put(&mut s, "tyr", "Italy", UnitType::Army);
    assert_eq!(s.year, 1902);
    s.next_phase();
    assert_eq!(s.phase, Phase::Builds);
    assert_eq!(s.year, 1902);
    s.next_phase();
    assert_eq!(s.phase, Phase::SpringDiplomacy);
    assert_eq!(s.year, 1903);
    let tyr = idx(&s, "tyr");
    s.map[tyr].unit = None;
    s.phase = Phase::FallRetreats;
    s.next_phase();
    assert_eq!(s.phase, Phase::SpringDiplomacy);
    assert_eq!(s.year, 1904);
}

#[test]
fn ownership_changes_after_fall() {
    let mut s = game();
    order(&mut s, "Italy", "A ven - tyr\n A rom - tus\n F nap - ion");
    s.apply_orders().unwrap();
    assert_eq!(s.phase, Phase::FallDiplomacy);
    let owner = |s: &Stpsyr, at: &str| s.get_region(&Province::from(at)).unwrap().owner.as_ref().map(|p| p.name.clone());
    // nothing changes hands in spring
    assert_eq!(owner(&s, "tyr"), None);
    assert_eq!(owner(&s, "tus"), None);
    order(&mut s, "Italy", "F ion - tun\n A tyr - tri");
    order(&mut s, "Austria", "F tri - alb");
    s.apply_orders().unwrap();
    assert_eq!(owner(&s, "tyr"), None);
    assert_eq!(owner(&s, "tus"), Some("Italy".to_string()));
    assert_eq!(owner(&s, "alb"), Some("Austria".to_string()));
    assert_eq!(owner(&s, "tun"), Some("Italy".to_string()));
    assert_eq!(owner(&s, "tri"), Some("Italy".to_string()));
    assert_eq!(owner(&s, "ven"), Some("Italy".to_string()));
    assert_eq!(s.phase, Phase::Builds);
    assert_eq!(s.year, 1901);
    let mut t = game();
    order(&mut t, "Austria", "A vie - tri\n F tri - ven");
    order(&mut t, "Italy", "A ven - pie");
    t.apply_orders().unwrap();
    // a supply centre taken in spring stays with its owner until fall
    assert_eq!(unit_text(&t, "ven"), "Fleet Austria");
    assert_eq!(owner(&t, "ven"), Some("Italy".to_string()));
    assert_eq!(t.get_region(&Province::from("ven")).unwrap().home_power.as_ref().unwrap().name, "Italy");
}

#[test]
fn retreats() {
    let mut s = game();
    put(&mut s, "tyr", "Italy", UnitType::Army);
    put(&mut s, "alb", "Turkey", UnitType::Army);
    put(&mut s, "adr", "Italy", UnitType::Fleet);
    order(&mut s, "Italy", "A ven - tri\n A tyr S ven - tri");
    order(&mut s, "Austria", "A vie - bud\n A bud - vie");
    order(&mut s, "Turkey", "A alb - ser");
    order(&mut s, "Russia", "A war - gal\n A mos - ukr");
    s.apply_orders().unwrap();
    assert_eq!(s.phase, Phase::SpringRetreats);
    assert_eq!(s.dislodged.len(), 1);
    let contested: Vec<String> = s.contested.iter().map(|p| p.label()).collect();
    assert_eq!(contested, vec!["bud", "vie"]);
    let retreat = |to: &str| RetreatAction::Move { to: Province::from(to) };
    let tri = Province::from("tri");
    // not the power's unit
    s.add_retreat(Power::from("Italy"), tri.clone(), retreat("adr"));
    // no unit was dislodged there
    s.add_retreat(Power::from("Austria"), Province::from("vie"), retreat("boh"));
    // an occupied province
    s.add_retreat(Power::from("Austria"), tri.clone(), retreat("adr"));
    // not a neighbour
    s.add_retreat(Power::from("Austria"), tri.clone(), retreat("ion"));
    // a fleet does not go inland
    s.add_retreat(Power::from("Austria"), tri.clone(), retreat("tyr"));
    assert!(s.retreats.is_empty());
    assert!(s.accepts_retreat(&Power::from("Austria"), &tri, &RetreatAction::Disband));
    s.add_retreat(Power::from("austria"), tri.clone(), retreat("alb"));
    assert_eq!(s.retreats.len(), 1);
    // one retreat for each unit
    s.add_retreat(Power::from("Austria"), tri.clone(), RetreatAction::Disband);
    assert_eq!(s.retreats.len(), 1);
    assert_eq!(s.dislodged_unit(&tri).unwrap().label(), "Fleet Austria");
    assert!(s.dislodged_unit(&Province::from("ven")).is_none());
    s.apply_retreats();
    assert_eq!(unit_text(&s, "alb"), "Fleet Austria");
    assert_eq!(unit_text(&s, "adr"), "Fleet Italy");
    assert_eq!(unit_text(&s, "tri"), "Army Italy");
    assert!(s.dislodged.is_empty());
    assert!(s.retreats.is_empty());
    assert_eq!(s.phase, Phase::FallDiplomacy);
}

#[test]
fn retreats_that_fail() {
    let mut s = empty_board();
    s.phase = Phase::FallRetreats;
    let army = |p: &str| Unit { owner: Power::from(p), unit_type: UnitType::Army };
    s.dislodged = vec![
        (Province::from("vie"), army("Austria")),
        (Province::from("mun"), army("Germany")),
        (Province::from("ven"), army("Italy")),
        (Province::from("war"), army("Russia")),
    ];
    s.contested = vec![Province::from("gal")];
    let retreat = |to: &str| RetreatAction::Move { to: Province::from(to) };
    // a contested province
    s.add_retreat(Power::from("Russia"), Province::from("war"), retreat("gal"));
    assert!(s.retreats.is_empty());
    s.add_retreat(Power::from("Austria"), Province::from("vie"), retreat("tyr"));
    s.add_retreat(Power::from("Germany"), Province::from("mun"), retreat("tyr"));
    s.add_retreat(Power::from("Italy"), Province::from("ven"), retreat("pie"));
    s.add_retreat(Power::from("Russia"), Province::from("war"), RetreatAction::Disband);
    assert_eq!(s.retreats.len(), 4);
    s.apply_retreats();
    // two units that retreat to the same province are both disbanded
    assert_eq!(unit_text(&s, "tyr"), "empty");
    assert_eq!(unit_text(&s, "pie"), "Army Italy");
    assert_eq!(units_on_board(&s), 1);
    assert!(s.dislodged.is_empty());
    assert_eq!(s.phase, Phase::Builds);
}

#[test]
fn adjustments() {
    let mut s = game();
    order(&mut s, "Italy", "A ven - tyr\n F nap - ion");
    order(&mut s, "Austria", "A vie - gal");
    s.apply_orders().unwrap();
    order(&mut s, "Italy", "F ion - tun\n A tyr - vie");
    s.apply_orders().unwrap();
    assert_eq!(s.phase, Phase::Builds);
    let italy = Power::from("Italy");
    let austria = Power::from("Austria");
    let build = |t: UnitType| AdjustAction::Build { unit_type: t };
    // Italy has five centres and three units, Austria two centres and three units
    assert!(!s.accepts_adjust(&italy, &Province::from("rom"), &build(UnitType::Army)));
    assert!(!s.accepts_adjust(&italy, &Province::from("tun"), &build(UnitType::Army)));
    assert!(!s.accepts_adjust(&italy, &Province::from("par"), &build(UnitType::Army)));
    assert!(!s.accepts_adjust(&italy, &Province::from("xyz"), &build(UnitType::Army)));
    assert!(!s.accepts_adjust(&italy, &Province::from("rom"), &AdjustAction::Disband));
    assert!(!s.accepts_adjust(&austria, &Province::from("bud"), &build(UnitType::Army)));
    assert!(!s.accepts_adjust(&austria, &Province::from("vie"), &AdjustAction::Disband));
    assert!(!s.accepts_adjust(&Power::from("France"), &Province::from("par"), &AdjustAction::Disband));
    s.add_adjust(Power::from("Italy"), Province::from("ven"), build(UnitType::Army));
    assert_eq!(s.adjusts.len(), 1);
    // one adjustment for each province
    s.add_adjust(Power::from("Italy"), Province::from("ven"), build(UnitType::Fleet));
    assert_eq!(s.adjusts.len(), 1);
    s.add_adjust(Power::from("Italy"), Province::from("nap"), build(UnitType::Fleet));
    assert_eq!(s.adjusts.len(), 2);
    s.add_adjust(Power::from("Austria"), Province::from("gal"), AdjustAction::Disband);
    assert_eq!(s.adjusts.len(), 3);
    // Austria has one unit too many, not two
    s.add_adjust(Power::from("Austria"), Province::from("bud"), AdjustAction::Disband);
    assert_eq!(s.adjusts.len(), 3);
    s.apply_adjusts();
    assert_eq!(unit_text(&s, "ven"), "Army Italy");
    assert_eq!(unit_text(&s, "nap"), "Fleet Italy");
    assert_eq!(unit_text(&s, "gal"), "empty");
    assert_eq!(unit_text(&s, "bud"), "Army Austria");
    assert!(s.adjusts.is_empty());
    assert_eq!(s.phase, Phase::SpringDiplomacy);
    assert_eq!(s.year, 1902);
    assert!(!s.uneven());
}

#[test]
fn a_landlocked_home_builds_no_fleet() {
    let mut s = game();
    put(&mut s, "tun", "Germany", UnitType::Army);
    let (tun, mun, ber) = (idx(&s, "tun"), idx(&s, "mun"), idx(&s, "ber"));
    s.map[tun].owner = Some(Power::from("Germany"));
    s.map[mun].unit = None;
    s.map[ber].unit = None;
    s.phase = Phase::Builds;
    let germany = Power::from("Germany");
    assert!(!s.accepts_adjust(&germany, &Province::from("mun"), &AdjustAction::Build { unit_type: UnitType::Fleet }));
    assert!(s.accepts_adjust(&germany, &Province::from("mun"), &AdjustAction::Build { unit_type: UnitType::Army }));
    assert!(s.accepts_adjust(&germany, &Province::from("ber"), &AdjustAction::Build { unit_type: UnitType::Fleet }));
}

#[test]
fn apply_ends_any_phase() {
    let mut s = game();
    put(&mut s, "tyr", "Italy", UnitType::Army);
    order(&mut s, "Italy", "A ven - tri\n A tyr S ven - tri");
    assert_eq!(s.apply(), Ok(()));
    assert_eq!(s.phase, Phase::SpringRetreats);
    assert_eq!(s.apply(), Ok(()));
    assert_eq!(s.phase, Phase::FallDiplomacy);
    assert_eq!(units_on_board(&s), 22);
    order(&mut s, "France", "A par - bur\n A mar - spa");
    assert_eq!(s.apply(), Ok(()));
    assert_eq!(s.phase, Phase::Builds);
    assert_eq!(s.year, 1901);
    assert_eq!(s.apply(), Ok(()));
    assert_eq!(s.phase, Phase::SpringDiplomacy);
    assert_eq!(s.year, 1902);
}
