//! Assignment of the coordinator and of the team: the calendar contract reports
//! which workers are available, and the first of them are chosen.
use super::model;
use super::{CoordinatorAssigned, Error, Project, ProjectStatus, TeamAssigned, TeamMember};
use crate::primitives::AccountId;
use vstd::prelude::*;

verus! {

impl Project {
    /// The calendar contract to ask which workers are available.
    pub fn availability_source(&self) -> (r: Result<AccountId, Error>)
        ensures
            match self@.calendar_contract {
                Some(calendar) => r == Ok::<AccountId, Error>(calendar),
                None => r == Err::<AccountId, Error>(Error::CalendarContractNotSet),
            },
    {
        match self.calendar_contract {
            Some(address) => Ok(address),
            None => Err(Error::CalendarContractNotSet),
        }
    }

    /// The calendar contract to ask for the coordinator's assignment, once the
    /// checks that come before that question pass: the caller must be the DAO
    /// and a calendar contract must be set. Where they fail, the assignment
    /// fails with the same error whatever the calendar would report.
    pub fn coordinator_source(&self, caller: AccountId) -> (r: Result<AccountId, Error>)
        ensures
            caller != self@.dao_address ==> r == Err::<AccountId, Error>(Error::NotAuthorized),
            caller == self@.dao_address ==> r == match self@.calendar_contract {
                Some(calendar) => Ok::<AccountId, Error>(calendar),
                None => Err::<AccountId, Error>(Error::CalendarContractNotSet),
            },
            r matches Err(e) ==> forall|available: Seq<AccountId>|
                #[trigger] model::assign_coordinator_effect(self@, caller, available) == (
                    self@,
                    Err::<AccountId, Error>(e),
                ),
    {
        if caller != self.dao_address {
            return Err(Error::NotAuthorized);
        }
        self.availability_source()
    }

    /// The calendar contract to ask for the team's assignment, once the checks
    /// that come before that question pass: a coordinator must be assigned,
    /// the caller must be that coordinator, and a calendar contract must be
    /// set. Where they fail, the assignment fails with the same error whatever
    /// the calendar would report.
    pub fn team_source(&self, caller: AccountId) -> (r: Result<AccountId, Error>)
        ensures
            self@.coordinator is None ==> r == Err::<AccountId, Error>(Error::CoordinatorNotAssigned),
            self@.coordinator is Some && caller != self@.coordinator->0 ==> r == Err::<
                AccountId,
                Error,
            >(Error::NotAuthorized),
            self@.coordinator == Some(caller) ==> r == match self@.calendar_contract {
                Some(calendar) => Ok::<AccountId, Error>(calendar),
                None => Err::<AccountId, Error>(Error::CalendarContractNotSet),
            },
            r matches Err(e) ==> forall|available: Seq<AccountId>|
                #[trigger] model::assign_team_effect(self@, caller, available) == (
                    self@,
                    Err::<Seq<model::MemberView>, Error>(e),
                ),
    {
        match self.coordinator {
            None => {
                return Err(Error::CoordinatorNotAssigned);
            },
            Some(coordinator) => {
                if caller != coordinator {
                    return Err(Error::NotAuthorized);
                }
            },
        }
        self.availability_source()
    }

    /// Selects the coordinator among the workers the calendar reported
    /// available, in the order it reported them: the first one.
    pub(crate) fn select_coordinator(&self, available_workers: &Vec<AccountId>) -> (r: Result<
        AccountId,
        Error,
    >)
        ensures
            self@.calendar_contract is None ==> r == Err::<AccountId, Error>(
                Error::CalendarContractNotSet,
            ),
            self@.calendar_contract is Some && available_workers@.len() == 0 ==> r == Err::<
                AccountId,
                Error,
            >(Error::NoAvailableCoordinators),
            self@.calendar_contract is Some && available_workers@.len() > 0 ==> r == Ok::<
                AccountId,
                Error,
            >(available_workers@[0]),
    {
        if self.calendar_contract.is_none() {
            return Err(Error::CalendarContractNotSet);
        }
        // Select the first available worker as coordinator
        if available_workers.len() > 0 {
            Ok(available_workers[0])
        } else {
            Err(Error::NoAvailableCoordinators)
        }
    }

    /// Forms the team from the workers the calendar reported available, in
    /// the order it reported them: the first three at most, as designer,
    /// developer and tester.
    pub(crate) fn select_team_members(
        &self,
        ideal_size: u8,
        available_workers: &Vec<AccountId>,
    ) -> (r: Result<Vec<TeamMember>, Error>)
        ensures
            self@.calendar_contract is None ==> r is Err && r->Err_0 == Error::CalendarContractNotSet,
            self@.calendar_contract is Some && available_workers@.len() == 0 ==> r is Err
                && r->Err_0 == Error::NoAvailableTeamMembers,
            self@.calendar_contract is Some && available_workers@.len() > 0 ==> r is Ok
                && model::members_view(r->Ok_0@) == model::team_from(available_workers@),
    {
        if self.calendar_contract.is_none() {
            return Err(Error::CalendarContractNotSet);
        }
        if available_workers.len() == 0 {
            return Err(Error::NoAvailableTeamMembers);
        }
        let mut team_members: Vec<TeamMember> = Vec::new();
        // Assign the first available worker as designer
        team_members.push(
            TeamMember {
                account_id: available_workers[0],
                role: "Designer".to_owned(),
                rating: None,
            },
        );
        // Assign the second available worker as developer
        if available_workers.len() > 1 {
            team_members.push(
                TeamMember {
                    account_id: available_workers[1],
                    role: "Developer".to_owned(),
                    rating: None,
                },
            );
        }
        // Assign the third available worker as tester
        if available_workers.len() > 2 {
            team_members.push(
                TeamMember {
                    account_id: available_workers[2],
                    role: "Tester".to_owned(),
                    rating: None,
                },
            );
        }
        assert(model::members_view(team_members@) =~= model::team_from(available_workers@));
        Ok(team_members)
    }

    /// The DAO assigns the coordinator, chosen among the workers that the
    /// calendar contract reported available. Returns the coordinator and the event.
    pub fn assign_coordinator(&mut self, caller: AccountId, available_workers: &Vec<AccountId>) -> (result:
        Result<(AccountId, CoordinatorAssigned), Error>)
        ensures
            final(self)@ == model::assign_coordinator_effect(old(self)@, caller, available_workers@).0,
            match result {
                Ok((coordinator, event)) => model::assign_coordinator_effect(
                    old(self)@,
                    caller,
                    available_workers@,
                ).1 == Ok::<AccountId, Error>(coordinator) && event.project@ == old(self)@.name
                    && event.coordinator == coordinator,
                Err(e) => model::assign_coordinator_effect(old(self)@, caller, available_workers@).1
                    == Err::<AccountId, Error>(e),
            },
    {
        if caller != self.dao_address {
            return Err(Error::NotAuthorized);
        }
        let coordinator = match self.select_coordinator(available_workers) {
            Ok(c) => c,
            Err(e) => {
                return Err(e);
            },
        };
        self.coordinator = Some(coordinator);
        self.status = ProjectStatus::CoordinatorAssigned;
        Ok((coordinator, CoordinatorAssigned { project: self.name.clone(), coordinator }))
    }

    /// The coordinator assigns the team, formed from the workers that the
    /// calendar contract reported available. Returns the team and the event.
    pub fn assign_team(
        &mut self,
        caller: AccountId,
        ideal_team_size: u8,
        available_workers: &Vec<AccountId>,
    ) -> (result: Result<(Vec<TeamMember>, TeamAssigned), Error>)
        ensures
            final(self)@ == model::assign_team_effect(old(self)@, caller, available_workers@).0,
            match result {
                Ok((team, event)) => model::assign_team_effect(
                    old(self)@,
                    caller,
                    available_workers@,
                ).1 == Ok::<Seq<model::MemberView>, Error>(model::members_view(team@))
                    && event.project@ == old(self)@.name && event.team_size == team@.len(),
                Err(e) => model::assign_team_effect(old(self)@, caller, available_workers@).1
                    == Err::<Seq<model::MemberView>, Error>(e),
            },
    {
        match self.coordinator {
            Some(coordinator) => {
                if caller != coordinator {
                    return Err(Error::NotAuthorized);
                }
            },
            None => {
                return Err(Error::CoordinatorNotAssigned);
            },
        }
        let team_members = match self.select_team_members(ideal_team_size, available_workers) {
            Ok(t) => t,
            Err(e) => {
                return Err(e);
            },
        };
        let mut copy: Vec<TeamMember> = Vec::new();
        for i in 0..team_members.len()
            invariant
                model::members_view(copy@) == model::members_view(team_members@).take(i as int),
        {
            let member = team_members[i].duplicate();
            let ghost prev = copy@;
            copy.push(member);
            proof {
                assert(copy@ == prev.push(member));
                assert(model::members_view(prev).len() == prev.len());
                assert forall|j: int| 0 <= j <= i implies model::members_view(copy@)[j]
                    == model::members_view(team_members@)[j] by {
                    if j < i {
                        assert(model::members_view(prev)[j] == model::members_view(
                            team_members@,
                        ).take(i as int)[j]);
                    }
                }
                assert(model::members_view(copy@) =~= model::members_view(team_members@).take(
                    i + 1,
                ));
            }
        }
        assert(model::members_view(team_members@).take(team_members@.len() as int)
            =~= model::members_view(team_members@));
        self.team_members = copy;
        self.status = ProjectStatus::TeamAssigned;
        let team_size = team_members.len() as u32;
        Ok((team_members, TeamAssigned { project: self.name.clone(), team_size }))
    }
}

} // verus!
