use stpsyr::{Action, AdjudicationError, Phase, Power, Province, Stpsyr, Unit, UnitType};

const STANDARD: &str = "\
name,sc,owner,unit,fleet,army
nao,false,,,nwg cly lvp iri mao,
nwg,false,,,nao bar nwy nth edi cly,
bar,false,,,nwg stp/nc nwy,
nth,false,,,nwg nwy ska den hel hol bel eng lon yor edi,
ska,false,,,nth nwy swe den,
hel,false,,,nth den kie hol,
bal,false,,,swe bot lvn pru ber kie den,
bot,false,,,swe fin stp/sc lvn bal,
iri,false,,,nao lvp wal eng mao,
eng,false,,,iri wal lon nth bel pic bre mao,
mao,false,,,nao iri eng bre gas spa/nc por spa/sc naf wes,
wes,false,,,mao spa/sc lyo tys tun naf,
lyo,false,,,spa/sc mar pie tus tys wes,
tys,false,,,lyo tus rom nap ion tun wes,
ion,false,,,tys nap apu adr alb gre aeg eas tun,
adr,false,,,ven tri alb ion apu,
aeg,false,,,gre bul/sc con smy eas ion,
eas,false,,,ion aeg smy syr,
bla,false,,,rum sev arm ank con bul/ec,
cly,false,,,nao nwg edi lvp,edi lvp
edi,true,England,Fleet,cly nwg nth yor,cly lvp yor
lvp,true,England,Army,cly nao iri wal,cly edi yor wal
yor,false,,,edi nth lon,edi lvp wal lon
wal,false,,,lvp iri eng lon,lvp yor lon
lon,true,England,Fleet,yor nth eng wal,yor wal
bre,true,France,Fleet,eng pic gas mao,pic par gas
pic,false,,,bre eng bel,bre par bur bel
par,true,France,Army,,bre pic bur gas
bur,false,,,,par pic bel ruh mun mar gas
gas,false,,,bre mao spa/nc,bre par bur mar spa
mar,true,France,Army,spa/sc lyo pie,gas bur pie spa
spa/nc,true,,,por mao gas,por gas mar
spa/sc,true,,,por mao wes lyo mar,por gas mar
por,true,,,mao spa/nc spa/sc,spa
naf,false,,,mao wes tun,tun
tun,true,,,naf wes tys ion,naf
pie,false,,,mar lyo tus,mar tyr ven tus
tus,false,,,pie lyo tys rom,pie ven rom
rom,true,Italy,Army,tus tys nap,tus ven apu nap
nap,true,Italy,Fleet,rom tys ion apu,rom apu
apu,false,,,ven adr ion nap,ven rom nap
ven,true,Italy,Army,tri adr apu,pie tyr tri apu rom tus
bel,true,,,pic eng nth hol,pic bur ruh hol
hol,true,,,bel nth hel kie,bel ruh kie
ruh,false,,,,bel hol kie mun bur
kie,true,Germany,Fleet,hol hel den bal ber,hol ruh mun ber den
ber,true,Germany,Army,kie bal pru,kie mun sil pru
mun,true,Germany,Army,,ruh kie ber sil boh tyr bur
den,true,,,kie hel nth ska bal swe,kie swe
pru,false,,,ber bal lvn,ber sil war lvn
sil,false,,,,ber mun boh gal war pru
nwy,true,,,nth nwg bar stp/nc ska swe,swe fin stp
swe,true,,,nwy ska den bal bot fin,nwy fin den
fin,false,,,swe bot stp/sc,nwy swe stp
stp/sc,true,Russia,Fleet,fin bot lvn,fin nwy mos lvn
stp/nc,true,Russia,Fleet,bar nwy,fin nwy mos lvn
lvn,false,,,stp/sc bot bal pru,stp mos war pru
mos,true,Russia,Army,,stp lvn war ukr sev
war,true,Russia,Army,,pru sil gal ukr mos lvn
ukr,false,,,,war gal rum sev mos
sev,true,Russia,Fleet,rum bla arm,ukr mos arm rum
boh,false,,,,mun sil gal vie tyr
tyr,false,,,,mun boh vie tri ven pie
vie,true,Austria,Army,,boh gal bud tri tyr
gal,false,,,,boh sil war ukr rum bud vie
bud,true,Austria,Army,,vie gal rum ser tri
tri,true,Austria,Fleet,ven adr alb,tyr vie bud ser alb ven
ser,true,,,,bud rum bul gre alb tri
alb,false,,,tri adr ion gre,tri ser gre
gre,true,,,alb ion aeg bul/sc,alb ser bul
bul/sc,true,,,gre aeg con,ser rum con gre
bul/ec,true,,,rum bla con,ser rum con gre
rum,true,,,sev bla bul/ec,bud gal ukr sev bul ser
con,true,Turkey,Army,bul/ec bul/sc bla ank aeg smy,bul ank smy
ank,true,Turkey,Fleet,con bla arm,con smy arm
smy,true,Turkey,Army,con aeg eas syr,con ank arm syr
arm,false,,,ank bla sev,ank smy syr sev
syr,false,,,smy eas,smy arm
";

fn game() -> Stpsyr {
    Stpsyr::new(STANDARD).unwrap()
}

fn order_move(s: &mut Stpsyr, power: &str, from: &str, to: &str, convoyed: bool) {
    s.add_order(
        Power::from(power),
        Province::from(from),
        Action::Move { to: Province::from(to), convoyed },
    );
}

fn order_support_hold(s: &mut Stpsyr, power: &str, from: &str, to: &str) {
    s.add_order(
        Power::from(power),
        Province::from(from),
        Action::SupportHold { to: Province::from(to) },
    );
}

fn order_support_move(s: &mut Stpsyr, power: &str, at: &str, from: &str, to: &str) {
    s.add_order(
        Power::from(power),
        Province::from(at),
        Action::SupportMove { from: Province::from(from), to: Province::from(to) },
    );
}

fn order_convoy(s: &mut Stpsyr, power: &str, at: &str, from: &str, to: &str) {
    s.add_order(
        Power::from(power),
        Province::from(at),
        Action::Convoy { from: Province::from(from), to: Province::from(to) },
    );
}

fn unit(s: &Stpsyr, at: &str) -> Option<Unit> {
    s.get_unit(&Province::from(at))
}

fn put(s: &mut Stpsyr, at: &str, power: &str, unit_type: UnitType) {
    let k = s.region_index(&Province::from(at)).unwrap();
    s.map[k].unit = Some(Unit { owner: Power::from(power), unit_type });
}

fn units_on_board(s: &Stpsyr) -> usize {
    s.map.iter().filter(|r| r.unit.is_some()).count()
}

#[test]
fn standard_map_loads() {
    let s = game();
    assert_eq!(s.map.len(), 75);
    assert_eq!(units_on_board(&s), 22);
    assert_eq!(s.phase, Phase::SpringDiplomacy);
    assert_eq!(s.year, 1901);
    let stp = s.get_region(&Province::from("stp")).unwrap();
    assert_eq!(stp.province.coast, Some('s'));
    assert_eq!(stp.fleet_borders.len(), 5);
    assert_eq!(stp.fleet_borders[3].from_coast, Some('n'));
}

#[test]
fn test_convoy() {
    let mut s = game();
    order_move(&mut s, "Italy", "nap", "ion", false);
    order_move(&mut s, "Italy", "rom", "apu", false);
    s.apply_orders().unwrap();
    order_convoy(&mut s, "Italy", "ion", "apu", "tun");
    order_move(&mut s, "Italy", "apu", "tun", true);
    s.apply_orders().unwrap();
    assert!(unit(&s, "tun").is_some());
}

#[test]
fn test_coast() {
    let mut s = game();
    order_move(&mut s, "Turkey", "ank", "con", false);
    order_move(&mut s, "Turkey", "con", "bul", false);
    s.apply_orders().unwrap();
    order_move(&mut s, "Turkey", "con", "bul/ec", false);
    order_move(&mut s, "Turkey", "bul", "gre", false);
    s.apply_orders().unwrap();
    assert_eq!(s.phase, Phase::Builds);
    s.apply_adjusts();
    order_support_move(&mut s, "Turkey", "bul", "bud", "rum");
    order_move(&mut s, "Austria", "bud", "rum", false);
    order_move(&mut s, "Russia", "sev", "rum", false);
    s.apply_orders().unwrap();
    assert!(unit(&s, "rum").is_some());
}

#[test]
fn simple_bounce() {
    let mut s = game();
    put(&mut s, "tri", "Austria", UnitType::Army);
    order_move(&mut s, "Italy", "ven", "tyr", false);
    order_move(&mut s, "Austria", "tri", "tyr", false);
    assert_eq!(s.orders.len(), 2);
    let dislodged = s.apply_orders().unwrap();
    assert!(dislodged.is_empty());
    assert!(unit(&s, "ven").is_some());
    assert!(unit(&s, "tri").is_some());
    assert!(unit(&s, "tyr").is_none());
}

#[test]
fn supported_dislodge() {
    let mut s = game();
    put(&mut s, "tyr", "Italy", UnitType::Army);
    order_support_hold(&mut s, "Austria", "tri", "tri");
    order_move(&mut s, "Italy", "ven", "tri", false);
    order_support_move(&mut s, "Italy", "tyr", "ven", "tri");
    let dislodged = s.apply_orders().unwrap();
    assert_eq!(dislodged.len(), 1);
    assert_eq!(dislodged[0].0.name, "tri");
    assert_eq!(dislodged[0].1.owner.name, "Austria");
    assert_eq!(unit(&s, "tri").unwrap().owner.name, "Italy");
    assert!(unit(&s, "ven").is_none());
    assert_eq!(s.phase, Phase::SpringRetreats);
}

#[test]
fn no_help_against_own_unit() {
    let mut s = game();
    put(&mut s, "ven", "Austria", UnitType::Fleet);
    put(&mut s, "tyr", "Italy", UnitType::Army);
    put(&mut s, "tri", "Austria", UnitType::Army);
    order_move(&mut s, "Italy", "tyr", "ven", false);
    order_support_move(&mut s, "Austria", "tri", "tyr", "ven");
    assert_eq!(s.orders.len(), 2);
    let dislodged = s.apply_orders().unwrap();
    assert!(dislodged.is_empty());
    let ven = unit(&s, "ven").unwrap();
    assert_eq!(ven.owner.name, "Austria");
    assert_eq!(ven.unit_type, UnitType::Fleet);
    assert!(unit(&s, "tyr").is_some());
}

#[test]
fn no_attack_on_own_unit() {
    let mut s = game();
    put(&mut s, "ven", "Austria", UnitType::Fleet);
    put(&mut s, "tyr", "Austria", UnitType::Army);
    put(&mut s, "tri", "Austria", UnitType::Army);
    order_move(&mut s, "Austria", "tyr", "ven", false);
    order_support_move(&mut s, "Austria", "tri", "tyr", "ven");
    let d = s.depth();
    assert_eq!(s.attack_strength(&Province::from("tyr"), d), Ok(0));
    let dislodged = s.apply_orders().unwrap();
    assert!(dislodged.is_empty());
    let ven = unit(&s, "ven").unwrap();
    assert_eq!(ven.owner.name, "Austria");
    assert_eq!(ven.unit_type, UnitType::Fleet);
}

#[test]
fn own_move_does_not_cut_support() {
    let mut s = game();
    put(&mut s, "tyr", "Italy", UnitType::Army);
    put(&mut s, "pie", "Italy", UnitType::Army);
    order_move(&mut s, "Italy", "ven", "tri", false);
    order_support_move(&mut s, "Italy", "tyr", "ven", "tri");
    // Italy moves into the province of its own supporting army
    order_move(&mut s, "Italy", "pie", "tyr", false);
    assert_eq!(s.orders.len(), 3);
    let dislodged = s.apply_orders().unwrap();
    assert_eq!(dislodged.len(), 1);
    assert_eq!(unit(&s, "tri").unwrap().owner.name, "Italy");
    assert!(unit(&s, "pie").is_some());
    // the same move by another power cuts the support
    let mut t = game();
    put(&mut t, "tyr", "Italy", UnitType::Army);
    put(&mut t, "pie", "France", UnitType::Army);
    order_move(&mut t, "Italy", "ven", "tri", false);
    order_support_move(&mut t, "Italy", "tyr", "ven", "tri");
    order_move(&mut t, "France", "pie", "tyr", false);
    let dislodged = t.apply_orders().unwrap();
    assert!(dislodged.is_empty());
    assert_eq!(unit(&t, "tri").unwrap().owner.name, "Austria");
}

#[test]
fn three_way_bounce() {
    let mut s = game();
    order_move(&mut s, "Italy", "ven", "tyr", false);
    order_move(&mut s, "Austria", "vie", "tyr", false);
    order_move(&mut s, "Germany", "mun", "tyr", false);
    assert_eq!(s.orders.len(), 3);
    s.apply_orders().unwrap();
    assert!(unit(&s, "tyr").is_none());
    assert!(unit(&s, "ven").is_some());
    assert!(unit(&s, "vie").is_some());
    assert!(unit(&s, "mun").is_some());
}

#[test]
fn circular_movement() {
    let mut s = game();
    order_move(&mut s, "Turkey", "ank", "con", false);
    order_move(&mut s, "Turkey", "con", "smy", false);
    order_move(&mut s, "Turkey", "smy", "ank", false);
    assert_eq!(s.orders.len(), 3);
    let dislodged = s.apply_orders().unwrap();
    assert!(dislodged.is_empty());
    assert_eq!(unit(&s, "con").unwrap().unit_type, UnitType::Fleet);
    assert_eq!(unit(&s, "smy").unwrap().unit_type, UnitType::Army);
    assert_eq!(unit(&s, "ank").unwrap().unit_type, UnitType::Army);
    assert_eq!(units_on_board(&s), 22);
}

#[test]
fn depth_zero_gives_up() {
    let mut s = game();
    order_move(&mut s, "Italy", "ven", "tyr", false);
    assert_eq!(s.resolve_within(0, 0), Err(AdjudicationError::TooDeep));
}
