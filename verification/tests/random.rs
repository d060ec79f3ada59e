use stpsyr::{Action, AdjudicationError, Phase, Power, Province, Stpsyr, Unit, UnitType};

const STANDARD: &str = "\
name,sc,owner,unit,fleet,army
nao,false,,,nwg cly lvp iri mao,
nwg,false,,,nao bar nwy nth edi cly,
bar,false,,,nwg stp/nc nwy,
nth,false,,,nwg nwy ska den hel hol bel eng lon yor edi,
ska,false,,,nth nwy swe den,
hel,false,,,nth den kie hol,
bal,false,,,swe bot lvn pru ber kie den,
bot,false,,,swe fin stp/sc lvn bal,
iri,false,,,nao lvp wal eng mao,
eng,false,,,iri wal lon nth bel pic bre mao,
mao,false,,,nao iri eng bre gas spa/nc por spa/sc naf wes,
wes,false,,,mao spa/sc lyo tys tun naf,
lyo,false,,,spa/sc mar pie tus tys wes,
tys,false,,,lyo tus rom nap ion tun wes,
ion,false,,,tys nap apu adr alb gre aeg eas tun,
adr,false,,,ven tri alb ion apu,
aeg,false,,,gre bul/sc con smy eas ion,
eas,false,,,ion aeg smy syr,
bla,false,,,rum sev arm ank con bul/ec,
cly,false,,,nao nwg edi lvp,edi lvp
edi,true,England,Fleet,cly nwg nth yor,cly lvp yor
lvp,true,England,Army,cly nao iri wal,cly edi yor wal
yor,false,,,edi nth lon,edi lvp wal lon
wal,false,,,lvp iri eng lon,lvp yor lon
lon,true,England,Fleet,yor nth eng wal,yor wal
bre,true,France,Fleet,eng pic gas mao,pic par gas
pic,false,,,bre eng bel,bre par bur bel
par,true,France,Army,,bre pic bur gas
bur,false,,,,par pic bel ruh mun mar gas
gas,false,,,bre mao spa/nc,bre par bur mar spa
mar,true,France,Army,spa/sc lyo pie,gas bur pie spa
spa/nc,true,,,por mao gas,por gas mar
spa/sc,true,,,por mao wes lyo mar,por gas mar
por,true,,,mao spa/nc spa/sc,spa
naf,false,,,mao wes tun,tun
tun,true,,,naf wes tys ion,naf
pie,false,,,mar lyo tus,mar tyr ven tus
tus,false,,,pie lyo tys rom,pie ven rom
rom,true,Italy,Army,tus tys nap,tus ven apu nap
nap,true,Italy,Fleet,rom tys ion apu,rom apu
apu,false,,,ven adr ion nap,ven rom nap
ven,true,Italy,Army,tri adr apu,pie tyr tri apu rom tus
bel,true,,,pic eng nth hol,pic bur ruh hol
hol,true,,,bel nth hel kie,bel ruh kie
ruh,false,,,,bel hol kie mun bur
kie,true,Germany,Fleet,hol hel den bal ber,hol ruh mun ber den
ber,true,Germany,Army,kie bal pru,kie mun sil pru
mun,true,Germany,Army,,ruh kie ber sil boh tyr bur
den,true,,,kie hel nth ska bal swe,kie swe
pru,false,,,ber bal lvn,ber sil war lvn
sil,false,,,,ber mun boh gal war pru
nwy,true,,,nth nwg bar stp/nc ska swe,swe fin stp
swe,true,,,nwy ska den bal bot fin,nwy fin den
fin,false,,,swe bot stp/sc,nwy swe stp
stp/sc,true,Russia,Fleet,fin bot lvn,fin nwy mos lvn
stp/nc,true,Russia,Fleet,bar nwy,fin nwy mos lvn
lvn,false,,,stp/sc bot bal pru,stp mos war pru
mos,true,Russia,Army,,stp lvn war ukr sev
war,true,Russia,Army,,pru sil gal ukr mos lvn
ukr,false,,,,war gal rum sev mos
sev,true,Russia,Fleet,rum bla arm,ukr mos arm rum
boh,false,,,,mun sil gal vie tyr
tyr,false,,,,mun boh vie tri ven pie
vie,true,Austria,Army,,boh gal bud tri tyr
gal,false,,,,boh sil war ukr rum bud vie
bud,true,Austria,Army,,vie gal rum ser tri
tri,true,Austria,Fleet,ven adr alb,tyr vie bud ser alb ven
ser,true,,,,bud rum bul gre alb tri
alb,false,,,tri adr ion gre,tri ser gre
gre,true,,,alb ion aeg bul/sc,alb ser bul
bul/sc,true,,,gre aeg con,ser rum con gre
bul/ec,true,,,rum bla con,ser rum con gre
rum,true,,,sev bla bul/ec,bud gal ukr sev bul ser
con,true,Turkey,Army,bul/ec bul/sc bla ank aeg smy,bul ank smy
ank,true,Turkey,Fleet,con bla arm,con smy arm
smy,true,Turkey,Army,con aeg eas syr,con ank arm syr
arm,false,,,ank bla sev,ank smy syr sev
syr,false,,,smy eas,smy arm
";

struct Rng(u64);

impl Rng {
    fn next(&mut self) -> u64 {
        self.0 = self.0.wrapping_mul(6364136223846793005).wrapping_add(1442695040888963407);
        self.0 >> 33
    }
    fn below(&mut self, n: usize) -> usize {
        (self.next() % (n as u64)) as usize
    }
}

fn units_on_board(s: &Stpsyr) -> usize {
    s.map.iter().filter(|r| r.unit.is_some()).count()
}

fn random_orders(s: &mut Stpsyr, rng: &mut Rng) {
    let n = s.map.len();
    let occupied: Vec<usize> = (0..n).filter(|&k| s.map[k].unit.is_some()).collect();
    // a convoy plan: one army on a coast, one coast to go to, and the fleets at sea in on it
    let armies: Vec<usize> = occupied
        .iter()
        .cloned()
        .filter(|&k| {
            s.map[k].unit.as_ref().unwrap().unit_type == UnitType::Army
                && !s.map[k].fleet_borders.is_empty()
        })
        .collect();
    let coasts: Vec<usize> = (0..n)
        .filter(|&k| !s.map[k].fleet_borders.is_empty() && !s.map[k].army_borders.is_empty())
        .collect();
    let plan = if armies.is_empty() {
        None
    } else {
        Some((armies[rng.below(armies.len())], coasts[rng.below(coasts.len())]))
    };
    for &k in occupied.iter() {
        if let Some((from, to)) = plan {
            let at_sea = s.map[k].army_borders.is_empty();
            if (at_sea && rng.below(3) != 0) || k == from {
                let unit = s.map[k].unit.clone().unwrap();
                let here = s.map[k].province.clone();
                let mut goal = s.map[to].province.clone();
                goal.coast = None;
                let action = if k == from {
                    Action::Move { to: goal, convoyed: true }
                } else {
                    Action::Convoy { from: s.map[from].province.clone(), to: goal }
                };
                s.add_order(unit.owner.clone(), here, action);
                continue;
            }
        }
        let unit = s.map[k].unit.clone().unwrap();
        let here = s.map[k].province.clone();
        let borders: Vec<Province> = match unit.unit_type {
            UnitType::Army => s.map[k].army_borders.clone(),
            UnitType::Fleet => s.map[k].fleet_borders.clone(),
        };
        let pick_border = |rng: &mut Rng| -> Province {
            if borders.is_empty() {
                here.clone()
            } else {
                let mut p = borders[rng.below(borders.len())].clone();
                p.from_coast = None;
                p
            }
        };
        let other = s.map[occupied[rng.below(occupied.len())]].province.clone();
        let anywhere = s.map[rng.below(n)].province.clone();
        let action = match rng.below(10) {
            0 => Action::Hold,
            1 | 2 | 3 | 4 => Action::Move { to: pick_border(rng), convoyed: false },
            5 => Action::Move { to: anywhere, convoyed: true },
            6 => Action::SupportHold { to: pick_border(rng) },
            7 | 8 => Action::SupportMove { from: other, to: pick_border(rng) },
            _ => Action::Convoy { from: other, to: anywhere },
        };
        s.add_order(unit.owner.clone(), here, action);
    }
}

// Many games with orders drawn at random: every adjudication comes to an end
// without an error, and no unit is made or lost.
#[test]
fn random_games() {
    let mut errors: Vec<AdjudicationError> = Vec::new();
    let mut lost = 0;
    let mut phases = 0;
    let mut most_orders = 0;
    for seed in 0..300u64 {
        let mut rng = Rng(seed * 7919 + 13);
        let mut s = Stpsyr::new(STANDARD).unwrap();
        // scatter some more units
        for _ in 0..rng.below(30) {
            let k = rng.below(s.map.len());
            if s.map[k].unit.is_none() {
                let sea = s.map[k].army_borders.is_empty();
                let inland = s.map[k].fleet_borders.is_empty();
                let unit_type = if sea || (!inland && rng.below(2) == 0) { UnitType::Fleet } else { UnitType::Army };
                let names = ["England", "France", "Germany", "Italy", "Austria", "Russia", "Turkey"];
                s.map[k].unit = Some(Unit { owner: Power::from(names[rng.below(7)]), unit_type });
            }
        }
        for _ in 0..6 {
            s.phase = Phase::SpringDiplomacy;
            s.dislodged.clear();
            random_orders(&mut s, &mut rng);
            most_orders = most_orders.max(s.orders.len());
            let before = units_on_board(&s);
            match s.apply_orders() {
                Ok(dislodged) => {
                    if units_on_board(&s) + dislodged.len() != before {
                        lost += 1;
                    }
                }
                Err(e) => {
                    errors.push(e);
                    s.orders.clear();
                    s.dependencies.clear();
                }
            }
            phases += 1;
        }
    }
    println!("phases {} most orders {} errors {:?} lost {}", phases, most_orders, errors, lost);
    assert!(errors.is_empty());
    assert_eq!(lost, 0);
}
